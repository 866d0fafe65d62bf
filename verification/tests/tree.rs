use bptree::BTree;
use bptree::byte::FixedStr;
use bptree::page::{PAGE_SIZE, Page, PageType};

#[test]
fn empty_first_insert_lookup() {
    let mut t: BTree<u32, u32> = BTree::new_empty().unwrap();
    t.set(&1, &2).unwrap();
    assert_eq!(t.get(&1), Some(2));
    assert_eq!(t.get(&2), None);
    let image = t.to_bytes();
    assert_eq!(image.len(), 2 * PAGE_SIZE);
    let meta: Page<u32, u32> = Page::from_bytes(0, &image[..PAGE_SIZE].to_vec()).unwrap();
    assert_eq!(meta.page_type, PageType::META);
    assert_eq!(meta.root_index(), 1);
    assert_eq!(meta.total_pages(), 2);
}

#[test]
fn dense_sequential_insert() {
    let mut t: BTree<u32, u32> = BTree::new_empty().unwrap();
    let n: u32 = 1_000_000;
    for i in 0..n {
        t.set(&i, &(i + 1)).unwrap();
    }
    for i in 0..n {
        assert_eq!(t.get(&i), Some(i + 1));
    }
    assert_eq!(t.get(&(n + 1)), None);
}

/// A deterministic permutation of 0..n from a multiplicative stepping.
fn permuted(n: u64) -> impl Iterator<Item = u64> {
    // 100_003 is prime, so stepping by a nonzero stride visits every
    // residue exactly once; keep only values below n.
    let m: u64 = 100_003;
    (0..m).map(move |i| (i * 48271) % m).filter(move |x| *x < n)
}

#[test]
fn shuffled_insert_and_reopen() {
    let n: u64 = 100_000;
    let mut t: BTree<u64, u64> = BTree::new_empty().unwrap();
    for i in permuted(n) {
        t.set(&i, &(i + 1)).unwrap();
    }
    for i in 0..n {
        assert_eq!(t.get(&i), Some(i + 1));
    }
    let image = t.to_bytes();
    let back: BTree<u64, u64> = BTree::open_bytes(&image).unwrap();
    for i in 0..n {
        assert_eq!(back.get(&i), Some(i + 1));
    }
    assert_eq!(back.get(&n), None);
}

#[test]
fn overwrite_keeps_one_key() {
    let mut t: BTree<u32, u32> = BTree::new_empty().unwrap();
    t.set(&1, &10).unwrap();
    t.set(&1, &20).unwrap();
    assert_eq!(t.get(&1), Some(20));
    let mut total_items = 0usize;
    for p in &t.pages {
        if p.page_type == PageType::LEAF {
            total_items += p.item_count();
        }
    }
    assert_eq!(total_items, 1);
}

#[test]
fn overwrite_is_idempotent() {
    let mut a: BTree<u32, u32> = BTree::new_empty().unwrap();
    let mut b: BTree<u32, u32> = BTree::new_empty().unwrap();
    for i in 0..2000u32 {
        a.set(&i, &i).unwrap();
        b.set(&i, &i).unwrap();
    }
    a.set(&77, &78).unwrap();
    b.set(&77, &78).unwrap();
    b.set(&77, &78).unwrap();
    assert_eq!(a.to_bytes(), b.to_bytes());
}

#[test]
fn no_phantom_keys() {
    let mut t: BTree<u32, u32> = BTree::new_empty().unwrap();
    for i in 0..20_000u32 {
        t.set(&(2 * i), &i).unwrap();
    }
    for i in 0..20_000u32 {
        assert_eq!(t.get(&(2 * i + 1)), None);
    }
}

#[test]
fn persistence_across_reopen() {
    let mut t: BTree<u32, u32> = BTree::new_empty().unwrap();
    for i in 0..5000u32 {
        t.set(&(i * 7), &(i + 1)).unwrap();
    }
    let image = t.to_bytes();
    let back: BTree<u32, u32> = BTree::open_bytes(&image).unwrap();
    for i in 0..5000u32 {
        assert_eq!(back.get(&(i * 7)), Some(i + 1));
    }
    assert_eq!(back.get(&3), None);
}

#[test]
fn float_values_as_bit_patterns() {
    let mut t: BTree<u64, u64> = BTree::new_empty().unwrap();
    let n: u64 = 10_000;
    for i in 0..n {
        t.set(&i, &(i as f64).sqrt().to_bits()).unwrap();
    }
    for i in 0..n {
        let got = f64::from_bits(t.get(&i).unwrap());
        assert_eq!(got.to_bits(), (i as f64).sqrt().to_bits());
    }
}

#[test]
fn string_key_and_value() {
    let mut t: BTree<FixedStr<50>, FixedStr<50>> = BTree::new_empty().unwrap();
    let k = FixedStr::new("金庸").unwrap();
    let v = FixedStr::new("飞雪连天射白鹿，笑书神侠倚碧鸳").unwrap();
    t.set(&k, &v).unwrap();
    let got = t.get(&FixedStr::new("金庸").unwrap()).unwrap();
    assert_eq!(got, v);
    assert_eq!(
        String::from_utf8(got.as_bytes().clone()).unwrap(),
        "飞雪连天射白鹿，笑书神侠倚碧鸳"
    );
    assert_eq!(t.get(&FixedStr::new("古龙").unwrap()), None);
}

#[test]
fn many_string_keys() {
    let mut t: BTree<FixedStr<16>, u32> = BTree::new_empty().unwrap();
    for i in 0..3000u32 {
        let k = FixedStr::new(&format!("key-{:08}", i * 3)).unwrap();
        t.set(&k, &i).unwrap();
    }
    for i in 0..3000u32 {
        let k = FixedStr::new(&format!("key-{:08}", i * 3)).unwrap();
        assert_eq!(t.get(&k), Some(i));
    }
    let missing = FixedStr::new("key-00000001").unwrap();
    assert_eq!(t.get(&missing), None);
}

#[test]
fn open_bytes_rejects_garbage() {
    assert!(BTree::<u32, u32>::open_bytes(&vec![0u8; 5]).is_err());
    assert!(BTree::<u32, u32>::open_bytes(&vec![0u8; PAGE_SIZE]).is_err());
    // A meta page whose recorded page count disagrees with the image.
    let t: BTree<u32, u32> = BTree::new_empty().unwrap();
    let mut image = t.to_bytes();
    image.extend(std::iter::repeat(0u8).take(PAGE_SIZE));
    assert!(BTree::<u32, u32>::open_bytes(&image).is_err());
}

#[test]
fn corrupted_string_slot_is_malformed() {
    let mut t: BTree<u32, FixedStr<8>> = BTree::new_empty().unwrap();
    t.set(&1, &FixedStr::new("ok").unwrap()).unwrap();
    let mut image = t.to_bytes();
    // The leaf is page 1; its value array starts after the key array.
    let max = (PAGE_SIZE - 8) / 12;
    let voff = PAGE_SIZE + 8 + max * 4;
    image[voff] = 0xff;
    assert!(BTree::<u32, FixedStr<8>>::open_bytes(&image).is_err());
}

#[test]
fn dirty_pages_track_writes() {
    let mut t: BTree<u32, u32> = BTree::new_empty().unwrap();
    let initial = t.take_dirty();
    assert_eq!(initial, vec![1, 0]);
    t.set(&1, &1).unwrap();
    let after_set = t.take_dirty();
    assert_eq!(after_set, vec![1]);
    assert!(t.take_dirty().is_empty());
}

#[test]
fn meta_page_is_written_last() {
    // Fill past one leaf so insertions split pages and allocate new ones;
    // in every write batch the meta page comes once, at the very end,
    // after the pages its root index and page count point at.
    let mut t: BTree<u32, u32> = BTree::new_empty().unwrap();
    t.take_dirty();
    for i in 0..2000u32 {
        t.set(&i, &i).unwrap();
        let dirty = t.take_dirty();
        let zeros = dirty.iter().filter(|x| **x == 0).count();
        if dirty.len() > 1 {
            assert_eq!(zeros, 1);
            assert_eq!(*dirty.last().unwrap(), 0);
        } else {
            assert_eq!(zeros, 0);
        }
    }
}
