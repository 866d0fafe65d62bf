use bptree::byte::FixedStr;
use bptree::page::{PAGE_SIZE, Page, PageError, PageType, Pos};

fn leaf() -> Page<u32, u32> {
    Page::new(1, PageType::LEAF).unwrap()
}

#[test]
fn new_page_kinds() {
    let meta: Page<u32, u32> = Page::new(0, PageType::META).unwrap();
    assert_eq!(meta.root_index(), 0);
    assert_eq!(meta.total_pages(), 0);
    let l = leaf();
    assert_eq!(l.item_count(), 0);
    let i: Page<u32, u32> = Page::new(2, PageType::INTERNAL).unwrap();
    assert_eq!(i.item_count(), 0);
    assert_eq!(i.ptr_at(0), Some(0));
}

#[test]
fn meta_fields() {
    let mut meta: Page<u32, u32> = Page::new(0, PageType::META).unwrap();
    meta.set_root_index(7);
    meta.set_total_page(9);
    assert_eq!(meta.root_index(), 7);
    assert_eq!(meta.total_pages(), 9);
}

#[test]
fn insert_keeps_keys_ascending() {
    let mut l = leaf();
    for k in [5u32, 1, 9, 3, 7] {
        l.insert(&k, &(k * 10)).unwrap();
    }
    assert_eq!(l.item_count(), 5);
    let mut prev = l.key_at(0).unwrap();
    for i in 1..l.item_count() {
        let cur = l.key_at(i).unwrap();
        assert!(prev < cur);
        prev = cur;
    }
    assert_eq!(l.key_at(0), Some(1));
    assert_eq!(l.value_at(0), Some(10));
    assert_eq!(l.key_at(4), Some(9));
    assert_eq!(l.key_at(5), None);
}

#[test]
fn insert_overwrites_in_place() {
    let mut l = leaf();
    l.insert(&4, &40).unwrap();
    l.insert(&4, &44).unwrap();
    assert_eq!(l.item_count(), 1);
    assert_eq!(l.value_at(0), Some(44));
}

#[test]
fn find_positions() {
    let mut l = leaf();
    assert_eq!(l.find(&5), None);
    for k in [10u32, 20, 30] {
        l.insert(&k, &k).unwrap();
    }
    assert_eq!(l.find(&20), Some((1, Pos::Current)));
    assert_eq!(l.find(&5), Some((0, Pos::Left)));
    assert_eq!(l.find(&25), Some((1, Pos::Right)));
    assert_eq!(l.find(&35), Some((2, Pos::Right)));
}

#[test]
fn full_leaf_rejects_new_key() {
    let mut l = leaf();
    // A leaf of u32 keys and u32 values holds (4096 - 8) / 8 items.
    let max = (PAGE_SIZE - 8) / 8;
    for k in 0..max as u32 {
        l.insert(&k, &k).unwrap();
    }
    assert!(l.is_full());
    assert_eq!(l.insert(&(max as u32), &0), Err(PageError::Full));
    // A key it already holds is still overwritten in place.
    l.insert(&3, &33).unwrap();
    assert_eq!(l.value_at(3), Some(33));
    assert_eq!(l.item_count(), max);
}

#[test]
fn set_item_count_truncates() {
    let mut l = leaf();
    for k in 0..6u32 {
        l.insert(&k, &k).unwrap();
    }
    l.set_item_count(4).unwrap();
    assert_eq!(l.item_count(), 4);
    assert_eq!(l.key_at(3), Some(3));
    assert_eq!(l.key_at(4), None);
    assert_eq!(l.set_item_count(PAGE_SIZE), Err(PageError::Full));
}

#[test]
fn set_item_count_grows_within_capacity() {
    let mut l = leaf();
    l.insert(&1, &10).unwrap();
    l.insert(&2, &20).unwrap();
    // Growing within capacity succeeds; the new slots expose the zeroed
    // on-disk bytes, decoded — 0 for a u32 slot.
    l.set_item_count(4).unwrap();
    assert_eq!(l.item_count(), 4);
    assert_eq!(l.key_at(3), Some(0));
    assert_eq!(l.value_at(2), Some(0));
    // The caller then writes the exposed slots, restoring the key order.
    l.set_key_at(2, &3).unwrap();
    l.set_value_at(2, &30).unwrap();
    l.set_key_at(3, &4).unwrap();
    l.set_value_at(3, &40).unwrap();
    assert_eq!(l.key_at(3), Some(4));
    assert_eq!(l.value_at(3), Some(40));
}

#[test]
fn slot_setters_bounds() {
    let mut l = leaf();
    l.insert(&1, &1).unwrap();
    assert_eq!(l.set_key_at(1, &2), Err(PageError::OutOfRange));
    assert_eq!(l.set_value_at(1, &2), Err(PageError::OutOfRange));
    l.set_key_at(0, &2).unwrap();
    l.set_value_at(0, &20).unwrap();
    assert_eq!(l.key_at(0), Some(2));
    assert_eq!(l.value_at(0), Some(20));
    let mut p: Page<u32, u32> = Page::new(2, PageType::INTERNAL).unwrap();
    assert_eq!(p.set_ptr_at(1, 5), Err(PageError::OutOfRange));
    p.set_ptr_at(0, 5).unwrap();
    assert_eq!(p.ptr_at(0), Some(5));
}

#[test]
fn insert_ptr_layout() {
    let mut p: Page<u32, u32> = Page::new(2, PageType::INTERNAL).unwrap();
    p.set_ptr_at(0, 1).unwrap();
    p.insert_ptr(&10, 2).unwrap();
    p.insert_ptr(&20, 3).unwrap();
    p.insert_ptr(&5, 4).unwrap();
    assert_eq!(p.item_count(), 3);
    assert_eq!(p.key_at(0), Some(5));
    assert_eq!(p.key_at(1), Some(10));
    assert_eq!(p.key_at(2), Some(20));
    assert_eq!(p.ptr_at(0), Some(1));
    assert_eq!(p.ptr_at(1), Some(4));
    assert_eq!(p.ptr_at(2), Some(2));
    assert_eq!(p.ptr_at(3), Some(3));
    assert_eq!(p.ptr_at(4), None);
}

#[test]
fn page_bytes_round_trip() {
    let mut l = leaf();
    for k in [4u32, 2, 8] {
        l.insert(&k, &(k + 1)).unwrap();
    }
    let bytes = l.to_bytes();
    assert_eq!(bytes.len(), PAGE_SIZE);
    assert_eq!(bytes[0], 0);
    let back: Page<u32, u32> = Page::from_bytes(1, &bytes).unwrap();
    assert_eq!(back.item_count(), 3);
    for i in 0..3 {
        assert_eq!(back.key_at(i), l.key_at(i));
        assert_eq!(back.value_at(i), l.value_at(i));
    }
}

#[test]
fn meta_bytes_round_trip() {
    let mut meta: Page<u32, u32> = Page::new(0, PageType::META).unwrap();
    meta.set_root_index(3);
    meta.set_total_page(11);
    let bytes = meta.to_bytes();
    assert_eq!(bytes[0], 1);
    let back: Page<u32, u32> = Page::from_bytes(0, &bytes).unwrap();
    assert_eq!(back.page_type, PageType::META);
    assert_eq!(back.root_index(), 3);
    assert_eq!(back.total_pages(), 11);
}

#[test]
fn layout_rejects_oversized_items() {
    // A 3000-byte key next to its value leaves room for only one item
    // per leaf; the configuration is rejected at page initialization.
    match Page::<FixedStr<3000>, u32>::new(1, PageType::LEAF) {
        Err(e) => assert_eq!(e, PageError::InvariantViolation),
        Ok(_) => panic!("an over-wide layout was accepted"),
    }
    assert!(bptree::BTree::<FixedStr<3000>, u32>::new_empty().is_err());
    assert!(Page::<u32, u32>::new(1, PageType::LEAF).is_ok());
}

#[test]
fn from_bytes_rejects_garbage() {
    let bytes: Vec<u8> = vec![0u8; 7];
    assert!(Page::<u32, u32>::from_bytes(0, &bytes).is_err());
    // An unsorted leaf image is rejected as malformed.
    let mut l = leaf();
    l.insert(&1, &1).unwrap();
    l.insert(&2, &2).unwrap();
    let mut bytes = l.to_bytes();
    // Swap the two keys in the raw image.
    let (a, b) = (bytes[11], bytes[15]);
    bytes[11] = b;
    bytes[15] = a;
    match Page::<u32, u32>::from_bytes(1, &bytes) {
        Err(e) => assert_eq!(e, PageError::Malformed),
        Ok(_) => panic!("an unsorted image was accepted"),
    }
}
