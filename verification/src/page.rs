//! Fixed-size pages.
//!
//! A page is bound to a page index in the file and tagged with a kind:
//! the meta page holds the root index and the page count, an internal page
//! holds separator keys and child pointers, a leaf page holds keys and
//! values. Keys within a page are kept strictly ascending. The on-disk
//! form is a fixed 4096-byte buffer; `to_bytes` and `from_bytes` translate
//! between the typed page and that buffer.
use vstd::prelude::*;

use crate::byte::{BinSizer, Decodable, Encodable, KeyOrd, encode_all, spec_zero_bytes};

verus! {

/// The fixed size of a page on disk, in bytes.
pub const PAGE_SIZE: usize = 4096;

/// The size of a child pointer (a page index) on disk, in bytes.
pub const PTR_SIZE: usize = 4;

/// Errors a page operation can report.
#[derive(Clone, Copy, Debug, PartialEq, Eq, Structural)]
pub enum PageError {
    /// The page holds its maximum number of items; the caller must split.
    Full,
    /// A slot index past the current item count.
    OutOfRange,
    /// The bytes do not form a page of the expected shape.
    Malformed,
    /// A condition the tree relies on does not hold; the structure must
    /// not be used further.
    InvariantViolation,
}

/// The three page kinds.
#[derive(Clone, Copy, Debug, PartialEq, Eq, Structural)]
pub enum PageType {
    META,
    INTERNAL,
    LEAF,
}

/// Where a searched key sits relative to the keys of a page: at slot `i`
/// exactly, immediately left of slot `i`, or immediately right of slot `i`.
#[derive(Clone, Copy, Debug, PartialEq, Eq, Structural)]
pub enum Pos {
    Current,
    Left,
    Right,
}

/// Keys strictly ascending.
pub open spec fn sorted_strict<K: KeyOrd>(s: Seq<K>) -> bool {
    forall|i: int, j: int| 0 <= i < j < s.len() ==> #[trigger] s[i].lt_spec(#[trigger] s[j])
}

/// Every element storable.
pub open spec fn all_wf<T: BinSizer>(s: Seq<T>) -> bool {
    forall|i: int| 0 <= i < s.len() ==> (#[trigger] s[i]).wf()
}

/// Some key of `s` is the searched key.
pub open spec fn has_key<K: KeyOrd>(s: Seq<K>, k: K) -> bool {
    exists|i: int| 0 <= i < s.len() && (#[trigger] s[i]).eq_spec(k)
}

/// The slot a missing key would occupy in a sorted key sequence: the
/// number of keys ordered before it.
pub open spec fn insert_pos<K: KeyOrd>(s: Seq<K>, k: K) -> int
    decreases s.len(),
{
    if s.len() == 0 {
        0
    } else if s[0].lt_spec(k) {
        1 + insert_pos(s.drop_first(), k)
    } else {
        0
    }
}

/// The capacity of a leaf page for the given key and value types.
pub open spec fn spec_leaf_max<K: BinSizer, V: BinSizer>() -> int {
    (PAGE_SIZE - 8) as int / (K::spec_bin_size() + V::spec_bin_size())
}

/// The capacity of an internal page for the given key type.
pub open spec fn spec_internal_max<K: BinSizer>() -> int {
    (PAGE_SIZE - 8 - PTR_SIZE) as int / (K::spec_bin_size() + PTR_SIZE as int)
}

/// Whether the key and value sizes admit a page of the given kind: the
/// sizes must fit a page and leave room for at least two items.
pub open spec fn spec_layout_ok<K: Encodable, V: Encodable>(pt: PageType) -> bool {
    match pt {
        PageType::META => true,
        PageType::LEAF => {
            &&& 1 <= K::spec_bin_size() <= PAGE_SIZE
            &&& 1 <= V::spec_bin_size() <= PAGE_SIZE
            &&& 2 <= spec_leaf_max::<K, V>() <= PAGE_SIZE
            &&& spec_leaf_max::<K, V>() * (K::spec_bin_size() + V::spec_bin_size()) <= PAGE_SIZE
                - 8
        },
        PageType::INTERNAL => {
            &&& 1 <= K::spec_bin_size() <= PAGE_SIZE
            &&& 2 <= spec_internal_max::<K>() <= PAGE_SIZE
            &&& spec_internal_max::<K>() * (K::spec_bin_size() + PTR_SIZE as int) <= PAGE_SIZE - 8
                - PTR_SIZE
        },
    }
}

/// A fixed-size page: a typed view of one 4096-byte region of the file.
pub struct Page<K, V> {
    /// The page's index in the file; its bytes live at `index * PAGE_SIZE`.
    pub index: u32,
    /// The page kind, encoded in byte 0 of the on-disk form.
    pub page_type: PageType,
    /// The keys stored in the page, in slot order. Public so that
    /// specifications can speak of the page's contents; mutate only
    /// through the page's methods, which keep `inv`.
    pub keys: Vec<K>,
    /// The values stored in a leaf, in slot order.
    pub values: Vec<V>,
    /// The child pointers stored in an internal page, in slot order.
    pub ptrs: Vec<u32>,
    /// The root page index recorded in a meta page.
    pub meta_root: u32,
    /// The page count recorded in a meta page.
    pub meta_total: u32,
    /// The page's item capacity, from the kind's layout.
    pub max_item_count: usize,
}

impl<K, V> Page<K, V> where K: KeyOrd + Encodable + Decodable, V: Encodable + Decodable {
    /// The keys stored in the page, in slot order.
    pub open spec fn spec_keys(self) -> Seq<K> {
        self.keys@
    }

    /// The values stored in a leaf, in slot order.
    pub open spec fn spec_values(self) -> Seq<V> {
        self.values@
    }

    /// The child pointers stored in an internal page, in slot order.
    pub open spec fn spec_ptrs(self) -> Seq<u32> {
        self.ptrs@
    }

    /// The root page index recorded in a meta page.
    pub open spec fn spec_meta_root(self) -> u32 {
        self.meta_root
    }

    /// The page count recorded in a meta page.
    pub open spec fn spec_meta_total(self) -> u32 {
        self.meta_total
    }

    /// The page's item capacity.
    pub open spec fn spec_max_items(self) -> int {
        self.max_item_count as int
    }

    /// Well-formedness: the capacity matches the kind's layout, the counts
    /// fit, the keys are strictly ascending and everything stored is
    /// storable. An internal page with `n` keys holds `n + 1` pointers.
    pub open spec fn inv(self) -> bool {
        match self.page_type {
            PageType::META => {
                &&& self.spec_keys().len() == 0
                &&& self.spec_values().len() == 0
                &&& self.spec_ptrs().len() == 0
            },
            PageType::LEAF => {
                &&& spec_layout_ok::<K, V>(PageType::LEAF)
                &&& self.spec_max_items() == spec_leaf_max::<K, V>()
                &&& self.spec_keys().len() == self.spec_values().len()
                &&& self.spec_keys().len() <= self.spec_max_items()
                &&& self.spec_ptrs().len() == 0
                &&& sorted_strict(self.spec_keys())
                &&& all_wf(self.spec_keys())
                &&& all_wf(self.spec_values())
            },
            PageType::INTERNAL => {
                &&& spec_layout_ok::<K, V>(PageType::INTERNAL)
                &&& self.spec_max_items() == spec_internal_max::<K>()
                &&& self.spec_keys().len() <= self.spec_max_items()
                &&& self.spec_ptrs().len() == self.spec_keys().len() + 1
                &&& self.spec_values().len() == 0
                &&& sorted_strict(self.spec_keys())
                &&& all_wf(self.spec_keys())
            },
        }
    }

    /// Computes the item capacity for the page's kind, rejecting key and
    /// value sizes that do not fit the fixed page layout.
    fn init_layout(&mut self) -> (r: Result<(), PageError>)
        ensures
            final(self).index == old(self).index,
            final(self).page_type == old(self).page_type,
            final(self).spec_keys() == old(self).spec_keys(),
            final(self).spec_values() == old(self).spec_values(),
            final(self).spec_ptrs() == old(self).spec_ptrs(),
            final(self).spec_meta_root() == old(self).spec_meta_root(),
            final(self).spec_meta_total() == old(self).spec_meta_total(),
            r is Ok <==> spec_layout_ok::<K, V>(old(self).page_type),
            r is Ok ==> match final(self).page_type {
                PageType::META => final(self).spec_max_items() == 0,
                PageType::LEAF => final(self).spec_max_items() == spec_leaf_max::<K, V>(),
                PageType::INTERNAL => final(self).spec_max_items() == spec_internal_max::<K>(),
            },
            r is Err ==> r == Result::<(), PageError>::Err(PageError::InvariantViolation)
                && final(self).spec_max_items() == old(self).spec_max_items(),
    {
        match self.page_type {
            PageType::META => {
                self.max_item_count = 0;
                Ok(())
            },
            PageType::LEAF => {
                let ks = K::bin_size();
                let vs = V::bin_size();
                if ks < 1 || ks > PAGE_SIZE || vs < 1 || vs > PAGE_SIZE {
                    return Err(PageError::InvariantViolation);
                }
                let max = (PAGE_SIZE - 8) / (ks + vs);
                if max < 2 || max > PAGE_SIZE {
                    return Err(PageError::InvariantViolation);
                }
                proof {
                    let d = K::spec_bin_size() + V::spec_bin_size();
                    vstd::arithmetic::div_mod::lemma_fundamental_div_mod(
                        (PAGE_SIZE - 8) as int,
                        d,
                    );
                    vstd::arithmetic::div_mod::lemma_mod_division_less_than_divisor(
                        (PAGE_SIZE - 8) as int,
                        d,
                    );
                    vstd::arithmetic::mul::lemma_mul_is_commutative(
                        d,
                        spec_leaf_max::<K, V>(),
                    );
                }
                self.max_item_count = max;
                Ok(())
            },
            PageType::INTERNAL => {
                let ks = K::bin_size();
                if ks < 1 || ks > PAGE_SIZE {
                    return Err(PageError::InvariantViolation);
                }
                let max = (PAGE_SIZE - 8 - PTR_SIZE) / (ks + PTR_SIZE);
                if max < 2 || max > PAGE_SIZE {
                    return Err(PageError::InvariantViolation);
                }
                proof {
                    let d = K::spec_bin_size() + PTR_SIZE as int;
                    vstd::arithmetic::div_mod::lemma_fundamental_div_mod(
                        (PAGE_SIZE - 8 - PTR_SIZE) as int,
                        d,
                    );
                    vstd::arithmetic::div_mod::lemma_mod_division_less_than_divisor(
                        (PAGE_SIZE - 8 - PTR_SIZE) as int,
                        d,
                    );
                    vstd::arithmetic::mul::lemma_mul_is_commutative(
                        d,
                        spec_internal_max::<K>(),
                    );
                }
                self.max_item_count = max;
                Ok(())
            },
        }
    }

    /// A fresh page of the given kind at the given index: no items, all
    /// meta fields zero; a fresh internal page holds the single pointer 0,
    /// to be set before the first key arrives.
    pub fn new(index: u32, pt: PageType) -> (r: Result<Self, PageError>)
        ensures
            r is Ok <==> spec_layout_ok::<K, V>(pt),
            match r {
                Ok(p) => {
                    &&& p.inv()
                    &&& p.index == index
                    &&& p.page_type == pt
                    &&& p.spec_keys().len() == 0
                    &&& p.spec_values().len() == 0
                    &&& p.spec_ptrs() == if pt == PageType::INTERNAL {
                        seq![0u32]
                    } else {
                        Seq::<u32>::empty()
                    }
                    &&& p.spec_meta_root() == 0
                    &&& p.spec_meta_total() == 0
                },
                Err(e) => e == PageError::InvariantViolation,
            },
    {
        let mut page = Page::<K, V> {
            index,
            page_type: pt,
            keys: Vec::new(),
            values: Vec::new(),
            ptrs: Vec::new(),
            meta_root: 0,
            meta_total: 0,
            max_item_count: 0,
        };
        if let PageType::INTERNAL = page.page_type {
            page.ptrs.push(0);
        }
        match page.init_layout() {
            Ok(()) => Ok(page),
            Err(e) => Err(e),
        }
    }

    /// The root page index of a meta page.
    pub fn root_index(&self) -> (r: u32)
        requires
            self.page_type == PageType::META,
        ensures
            r == self.spec_meta_root(),
    {
        self.meta_root
    }

    /// The page count of a meta page.
    pub fn total_pages(&self) -> (r: u32)
        requires
            self.page_type == PageType::META,
        ensures
            r == self.spec_meta_total(),
    {
        self.meta_total
    }

    /// Records the root page index in a meta page.
    pub fn set_root_index(&mut self, root_index: u32)
        requires
            old(self).page_type == PageType::META,
        ensures
            *final(self) == (Page { meta_root: root_index, ..*old(self) }),
    {
        self.meta_root = root_index;
    }

    /// Records the page count in a meta page.
    pub fn set_total_page(&mut self, total_page: u32)
        requires
            old(self).page_type == PageType::META,
        ensures
            *final(self) == (Page { meta_total: total_page, ..*old(self) }),
    {
        self.meta_total = total_page;
    }

    /// The number of items in a leaf or internal page.
    pub fn item_count(&self) -> (r: usize)
        requires
            self.page_type != PageType::META,
        ensures
            r == self.spec_keys().len(),
    {
        self.keys.len()
    }

    /// Whether a leaf or internal page is at capacity.
    pub fn is_full(&self) -> (r: bool)
        requires
            self.page_type != PageType::META,
            self.inv(),
        ensures
            r == (self.spec_keys().len() >= self.spec_max_items()),
    {
        self.keys.len() >= self.max_item_count
    }

    /// Sets a leaf or internal page's item count; only a count past the
    /// capacity fails, with `Full`. Shrinking truncates. Growing within
    /// capacity exposes the new slots' untouched on-disk bytes — all
    /// zero, as the fixed buffer is zero-initialized — decoded at the key
    /// and value types; the page keeps its key order, and with it its
    /// well-formedness, once the caller overwrites the exposed slots.
    /// `Malformed` can arise only when a zeroed slot does not decode.
    pub fn set_item_count(&mut self, item_count: usize) -> (r: Result<(), PageError>)
        requires
            old(self).page_type != PageType::META,
            old(self).inv(),
        ensures
            final(self).index == old(self).index,
            final(self).page_type == old(self).page_type,
            final(self).spec_max_items() == old(self).spec_max_items(),
            r == Result::<(), PageError>::Err(PageError::Full) <==> item_count > old(
                self,
            ).spec_max_items(),
            r is Err <==> (item_count > old(self).spec_max_items() || (item_count > old(
                self,
            ).spec_keys().len() && (!K::spec_decodable(spec_zero_bytes(K::spec_bin_size())) || (
            old(self).page_type == PageType::LEAF && !V::spec_decodable(
                spec_zero_bytes(V::spec_bin_size()),
            ))))),
            match r {
                Ok(()) => {
                    &&& final(self).spec_keys().len() == item_count
                    &&& final(self).spec_values().len() == (if old(self).page_type
                        == PageType::LEAF {
                        item_count as int
                    } else {
                        0
                    })
                    &&& final(self).spec_ptrs().len() == (if old(self).page_type
                        == PageType::INTERNAL {
                        item_count + 1
                    } else {
                        0
                    })
                    &&& forall|j: int|
                        0 <= j < old(self).spec_keys().len() && j < item_count ==> final(self).spec_keys()[j] == old(self).spec_keys()[j]
                    &&& forall|j: int|
                        0 <= j < old(self).spec_values().len() && j < item_count ==> final(self).spec_values()[j] == old(self).spec_values()[j]
                    &&& forall|j: int|
                        0 <= j < old(self).spec_ptrs().len() && j < item_count + 1 ==> final(self).spec_ptrs()[j] == old(self).spec_ptrs()[j]
                    &&& forall|j: int|
                        old(self).spec_keys().len() <= j < item_count ==> (#[trigger] final(self).spec_keys()[j]).wf() && final(self).spec_keys()[j].spec_encode()
                            == K::spec_canon(spec_zero_bytes(K::spec_bin_size()))
                    &&& forall|j: int|
                        old(self).spec_values().len() <= j < final(self).spec_values().len() ==> (#[trigger] final(self).spec_values()[j]).wf()
                            && final(self).spec_values()[j].spec_encode() == V::spec_canon(
                            spec_zero_bytes(V::spec_bin_size()),
                        )
                    &&& forall|j: int|
                        old(self).spec_ptrs().len() <= j < final(self).spec_ptrs().len()
                            ==> #[trigger] final(self).spec_ptrs()[j] == 0
                    &&& (sorted_strict(final(self).spec_keys()) ==> final(self).inv())
                    &&& item_count <= old(self).spec_keys().len() ==> final(self).inv()
                },
                Err(e) => *final(self) == *old(self) && (e == PageError::Full || e
                    == PageError::Malformed),
            },
    {
        if item_count > self.max_item_count {
            return Err(PageError::Full);
        }
        if item_count <= self.keys.len() {
            self.keys.truncate(item_count);
            if let PageType::LEAF = self.page_type {
                self.values.truncate(item_count);
            }
            if let PageType::INTERNAL = self.page_type {
                self.ptrs.truncate(item_count + 1);
            }
            proof {
                assert(final(self).spec_keys() =~= old(self).spec_keys().take(
                    item_count as int,
                ));
                lemma_sorted_subrange(old(self).spec_keys(), 0, item_count as int);
                lemma_wf_subrange(old(self).spec_keys(), 0, item_count as int);
                lemma_wf_subrange(
                    old(self).spec_values(),
                    0,
                    if old(self).page_type == PageType::LEAF {
                        item_count as int
                    } else {
                        0
                    },
                );
            }
            return Ok(());
        }
        let ks = K::bin_size();
        let zk: Vec<u8> = vec![0u8; ks];
        proof {
            assert(zk@ =~= spec_zero_bytes(K::spec_bin_size()));
            assert(zk@.subrange(0, K::spec_bin_size()) =~= spec_zero_bytes(K::spec_bin_size()));
        }
        let kzero = match K::decode(&zk, 0) {
            Ok((v, _)) => v,
            Err(_) => {
                return Err(PageError::Malformed);
            },
        };
        match self.page_type {
            PageType::LEAF => {
                let vs = V::bin_size();
                let zv: Vec<u8> = vec![0u8; vs];
                proof {
                    assert(zv@ =~= spec_zero_bytes(V::spec_bin_size()));
                    assert(zv@.subrange(0, V::spec_bin_size()) =~= spec_zero_bytes(
                        V::spec_bin_size(),
                    ));
                }
                let vzero = match V::decode(&zv, 0) {
                    Ok((v, _)) => v,
                    Err(_) => {
                        return Err(PageError::Malformed);
                    },
                };
                while self.keys.len() < item_count
                    invariant
                        old(self).page_type == PageType::LEAF,
                        old(self).inv(),
                        self.page_type == PageType::LEAF,
                        self.index == old(self).index,
                        self.max_item_count == old(self).max_item_count,
                        self.ptrs@ == old(self).ptrs@,
                        kzero.wf(),
                        kzero.spec_encode() == K::spec_canon(
                            spec_zero_bytes(K::spec_bin_size()),
                        ),
                        vzero.wf(),
                        vzero.spec_encode() == V::spec_canon(
                            spec_zero_bytes(V::spec_bin_size()),
                        ),
                        old(self).spec_keys().len() <= self.keys@.len() <= item_count,
                        self.values@.len() == self.keys@.len(),
                        forall|j: int|
                            0 <= j < old(self).spec_keys().len() ==> self.keys@[j] == old(
                                self,
                            ).spec_keys()[j] && self.values@[j] == old(self).spec_values()[j],
                        forall|j: int|
                            old(self).spec_keys().len() <= j < self.keys@.len() ==> (
                            #[trigger] self.keys@[j]).wf() && self.keys@[j].spec_encode()
                                == K::spec_canon(spec_zero_bytes(K::spec_bin_size())),
                        forall|j: int|
                            old(self).spec_values().len() <= j < self.values@.len() ==> (
                            #[trigger] self.values@[j]).wf() && self.values@[j].spec_encode()
                                == V::spec_canon(spec_zero_bytes(V::spec_bin_size())),
                    decreases item_count - self.keys@.len(),
                {
                    let kc = kzero.dup();
                    let vc = vzero.dup();
                    proof {
                        K::lemma_encode_eq(kc, kzero);
                        V::lemma_encode_eq(vc, vzero);
                    }
                    let ghost pk = self.keys@;
                    let ghost pv = self.values@;
                    self.keys.push(kc);
                    self.values.push(vc);
                    proof {
                        assert(forall|j: int| 0 <= j < pk.len() ==> self.keys@[j] == pk[j]);
                        assert(forall|j: int| 0 <= j < pv.len() ==> self.values@[j] == pv[j]);
                    }
                }
                Ok(())
            },
            PageType::INTERNAL => {
                while self.keys.len() < item_count
                    invariant
                        old(self).page_type == PageType::INTERNAL,
                        old(self).inv(),
                        self.page_type == PageType::INTERNAL,
                        self.index == old(self).index,
                        self.max_item_count == old(self).max_item_count,
                        self.values@ == old(self).values@,
                        kzero.wf(),
                        kzero.spec_encode() == K::spec_canon(
                            spec_zero_bytes(K::spec_bin_size()),
                        ),
                        old(self).spec_keys().len() <= self.keys@.len() <= item_count,
                        self.ptrs@.len() == self.keys@.len() + 1,
                        forall|j: int|
                            0 <= j < old(self).spec_keys().len() ==> #[trigger] self.keys@[j]
                                == old(self).spec_keys()[j],
                        forall|j: int|
                            0 <= j < old(self).spec_ptrs().len() ==> #[trigger] self.ptrs@[j]
                                == old(self).spec_ptrs()[j],
                        forall|j: int|
                            old(self).spec_keys().len() <= j < self.keys@.len() ==> (
                            #[trigger] self.keys@[j]).wf() && self.keys@[j].spec_encode()
                                == K::spec_canon(spec_zero_bytes(K::spec_bin_size())),
                        forall|j: int|
                            old(self).spec_ptrs().len() <= j < self.ptrs@.len()
                                ==> #[trigger] self.ptrs@[j] == 0,
                    decreases item_count - self.keys@.len(),
                {
                    let kc = kzero.dup();
                    proof {
                        K::lemma_encode_eq(kc, kzero);
                    }
                    let ghost pk = self.keys@;
                    let ghost pp = self.ptrs@;
                    self.keys.push(kc);
                    self.ptrs.push(0);
                    proof {
                        assert(forall|j: int| 0 <= j < pk.len() ==> self.keys@[j] == pk[j]);
                        assert(forall|j: int| 0 <= j < pp.len() ==> self.ptrs@[j] == pp[j]);
                    }
                }
                Ok(())
            },
            PageType::META => {
                proof {
                    assert(false);
                }
                Err(PageError::Malformed)
            },
        }
    }

    /// The key at slot `i`, or absent when `i` is past the item count.
    pub fn key_at(&self, i: usize) -> (r: Option<K>)
        requires
            self.page_type != PageType::META,
            self.inv(),
        ensures
            match r {
                Some(key) => i < self.spec_keys().len() && key.wf() && key.eq_spec(
                    self.spec_keys()[i as int],
                ),
                None => i >= self.spec_keys().len(),
            },
    {
        if i >= self.keys.len() {
            None
        } else {
            Some(self.keys[i].dup())
        }
    }

    /// The value at slot `i` of a leaf, or absent when `i` is past the
    /// item count.
    pub fn value_at(&self, i: usize) -> (r: Option<V>)
        requires
            self.page_type == PageType::LEAF,
            self.inv(),
        ensures
            match r {
                Some(value) => i < self.spec_values().len() && value.wf() && value.eq_spec(
                    self.spec_values()[i as int],
                ),
                None => i >= self.spec_values().len(),
            },
    {
        if i >= self.values.len() {
            None
        } else {
            Some(self.values[i].dup())
        }
    }

    /// The child pointer at slot `i` of an internal page, or absent when
    /// `i` is past the pointer count (one more than the item count).
    pub fn ptr_at(&self, i: usize) -> (r: Option<u32>)
        requires
            self.page_type == PageType::INTERNAL,
            self.inv(),
        ensures
            match r {
                Some(ptr) => i < self.spec_ptrs().len() && ptr == self.spec_ptrs()[i as int],
                None => i >= self.spec_ptrs().len(),
            },
    {
        if i >= self.ptrs.len() {
            None
        } else {
            Some(self.ptrs[i])
        }
    }

    /// Overwrites the key at slot `i`; fails with `OutOfRange` past the
    /// item count. The page keeps its shape; it keeps `inv` whenever the
    /// new key respects the key order at slot `i`.
    pub fn set_key_at(&mut self, i: usize, key: &K) -> (r: Result<(), PageError>)
        requires
            old(self).page_type != PageType::META,
            old(self).inv(),
            key.wf(),
        ensures
            final(self).index == old(self).index,
            final(self).page_type == old(self).page_type,
            final(self).spec_max_items() == old(self).spec_max_items(),
            final(self).spec_values() == old(self).spec_values(),
            final(self).spec_ptrs() == old(self).spec_ptrs(),
            r is Err <==> i >= old(self).spec_keys().len(),
            match r {
                Ok(()) => {
                    &&& final(self).spec_keys() == old(self).spec_keys().update(
                        i as int,
                        final(self).spec_keys()[i as int],
                    )
                    &&& final(self).spec_keys()[i as int].eq_spec(*key)
                    &&& final(self).spec_keys()[i as int].wf()
                    &&& (sorted_strict(final(self).spec_keys()) ==> final(self).inv())
                },
                Err(e) => e == PageError::OutOfRange && *final(self) == *old(self),
            },
    {
        if i >= self.keys.len() {
            return Err(PageError::OutOfRange);
        }
        let kk = key.dup();
        let slot = &mut self.keys[i];
        *slot = kk;
        proof {
            assert(final(self).spec_keys() =~= old(self).spec_keys().update(
                i as int,
                final(self).spec_keys()[i as int],
            ));
        }
        Ok(())
    }

    /// Overwrites the value at slot `i` of a leaf; fails with `OutOfRange`
    /// past the item count.
    pub fn set_value_at(&mut self, i: usize, value: &V) -> (r: Result<(), PageError>)
        requires
            old(self).page_type == PageType::LEAF,
            old(self).inv(),
            value.wf(),
        ensures
            final(self).index == old(self).index,
            final(self).page_type == old(self).page_type,
            final(self).spec_max_items() == old(self).spec_max_items(),
            final(self).spec_keys() == old(self).spec_keys(),
            final(self).spec_ptrs() == old(self).spec_ptrs(),
            final(self).inv(),
            r is Err <==> i >= old(self).spec_values().len(),
            match r {
                Ok(()) => {
                    &&& final(self).spec_values() == old(self).spec_values().update(
                        i as int,
                        final(self).spec_values()[i as int],
                    )
                    &&& final(self).spec_values()[i as int].eq_spec(*value)
                },
                Err(e) => e == PageError::OutOfRange && *final(self) == *old(self),
            },
    {
        if i >= self.values.len() {
            return Err(PageError::OutOfRange);
        }
        let vv = value.dup();
        let slot = &mut self.values[i];
        *slot = vv;
        proof {
            assert(final(self).spec_values() =~= old(self).spec_values().update(
                i as int,
                final(self).spec_values()[i as int],
            ));
        }
        Ok(())
    }

    /// Binary search over the page's keys. Absent only on an empty page;
    /// otherwise `(i, Current)` on an exact match at slot `i`, `(0, Left)`
    /// when the key sits before all keys, and `(i, Right)` when the key
    /// sits immediately after slot `i`.
    pub fn find(&self, k: &K) -> (r: Option<(usize, Pos)>)
        requires
            self.page_type != PageType::META,
            self.inv(),
        ensures
            match r {
                None => self.spec_keys().len() == 0,
                Some((i, pos)) => {
                    &&& self.spec_keys().len() > 0
                    &&& match pos {
                        Pos::Current => i < self.spec_keys().len() && self.spec_keys()[
                            i as int
                        ].eq_spec(*k),
                        Pos::Left => i == 0 && k.lt_spec(self.spec_keys()[0]),
                        Pos::Right => {
                            &&& i < self.spec_keys().len()
                            &&& self.spec_keys()[i as int].lt_spec(*k)
                            &&& (i + 1 == self.spec_keys().len() || k.lt_spec(
                                self.spec_keys()[i + 1],
                            ))
                        },
                    }
                },
            },
    {
        let item_count = self.keys.len();
        if item_count == 0 {
            return None;
        }
        let mut min: usize = 0;
        let mut max: usize = item_count - 1;
        while min <= max
            invariant
                self.inv(),
                self.page_type != PageType::META,
                item_count == self.spec_keys().len(),
                0 < item_count,
                max < item_count,
                min <= max + 1,
                min > 0 ==> min < item_count && self.spec_keys()[min - 1].lt_spec(*k)
                    && !k.lt_spec(self.spec_keys()[min as int]),
                max + 1 < item_count ==> k.lt_spec(self.spec_keys()[max + 1]),
            decreases max + 1 - min,
        {
            let mid = (min + max) / 2;
            let mid_key = &self.keys[mid];
            if mid_key.key_eq(k) {
                return Some((mid, Pos::Current));
            } else if mid_key.key_lt(k) {
                if mid == item_count - 1 {
                    return Some((mid, Pos::Right));
                }
                let next_key = &self.keys[mid + 1];
                if k.key_lt(next_key) {
                    return Some((mid, Pos::Right));
                }
                min = mid + 1;
            } else {
                proof {
                    K::lemma_eq_spec(*k, self.spec_keys()[mid as int], *k);
                    K::lemma_eq_spec(self.spec_keys()[mid as int], *k, *k);
                    K::lemma_order(*k, self.spec_keys()[mid as int], *k);
                }
                if mid == 0 {
                    return Some((0, Pos::Left));
                }
                max = mid - 1;
            }
        }
        proof {
            assert(false);
        }
        None
    }

    /// Inserts a key/value pair into a leaf, keeping the keys ascending.
    /// A pair whose key is already present overwrites in place. A full
    /// page without that key fails with `Full`, exactly then: a leaf at
    /// capacity admits no new distinct key without a split.
    pub fn insert(&mut self, k: &K, v: &V) -> (r: Result<(), PageError>)
        requires
            old(self).page_type == PageType::LEAF,
            old(self).inv(),
            k.wf(),
            v.wf(),
        ensures
            final(self).index == old(self).index,
            final(self).page_type == old(self).page_type,
            final(self).spec_max_items() == old(self).spec_max_items(),
            final(self).spec_ptrs() == old(self).spec_ptrs(),
            final(self).inv(),
            r is Err <==> old(self).spec_keys().len() >= old(self).spec_max_items() && !has_key(
                old(self).spec_keys(),
                *k,
            ),
            match r {
                Ok(()) => if has_key(old(self).spec_keys(), *k) {
                    exists|i: int|
                        {
                            &&& 0 <= i < old(self).spec_keys().len()
                            &&& (#[trigger] old(self).spec_keys()[i]).eq_spec(*k)
                            &&& final(self).spec_keys() == old(self).spec_keys().update(
                                i,
                                final(self).spec_keys()[i],
                            )
                            &&& final(self).spec_keys()[i].eq_spec(*k)
                            &&& final(self).spec_values() == old(self).spec_values().update(
                                i,
                                final(self).spec_values()[i],
                            )
                            &&& final(self).spec_values()[i].eq_spec(*v)
                        }
                } else {
                    {
                        let p = insert_pos(old(self).spec_keys(), *k);
                        &&& 0 <= p <= old(self).spec_keys().len()
                        &&& old(self).spec_keys().len() < old(self).spec_max_items()
                        &&& final(self).spec_keys() == old(self).spec_keys().insert(
                            p,
                            final(self).spec_keys()[p],
                        )
                        &&& final(self).spec_keys()[p].eq_spec(*k)
                        &&& final(self).spec_values() == old(self).spec_values().insert(
                            p,
                            final(self).spec_values()[p],
                        )
                        &&& final(self).spec_values()[p].eq_spec(*v)
                    }
                },
                Err(e) => e == PageError::Full && *final(self) == *old(self),
            },
    {
        let ghost old_keys = self.spec_keys();
        match self.find(k) {
            None => {
                self.keys.push(k.dup());
                self.values.push(v.dup());
                proof {
                    assert(final(self).spec_keys() =~= old_keys.insert(
                        0,
                        final(self).spec_keys()[0],
                    ));
                    assert(final(self).spec_values() =~= old(self).spec_values().insert(
                        0,
                        final(self).spec_values()[0],
                    ));
                }
                Ok(())
            },
            Some((i, pos)) => {
                match pos {
                    Pos::Current => {
                        let kk = k.dup();
                        let vv = v.dup();
                        proof {
                            K::lemma_eq_spec(old_keys[i as int], *k, *k);
                            K::lemma_eq_spec(kk, *k, old_keys[i as int]);
                        }
                        let slot = &mut self.keys[i];
                        *slot = kk;
                        let vslot = &mut self.values[i];
                        *vslot = vv;
                        proof {
                            lemma_sorted_update_eq(old_keys, i as int, kk);
                            assert(final(self).spec_keys() =~= old_keys.update(i as int, kk));
                            assert(final(self).spec_values() =~= old(self).spec_values().update(
                                i as int,
                                final(self).spec_values()[i as int],
                            ));
                        }
                        Ok(())
                    },
                    Pos::Left => {
                        proof {
                            assert forall|j: int| 0 <= j < old_keys.len() implies k.lt_spec(
                                #[trigger] old_keys[j],
                            ) by {
                                if j > 0 {
                                    K::lemma_order(*k, old_keys[0], old_keys[j]);
                                }
                            }
                            lemma_bounds_locate(old_keys, *k, 0);
                        }
                        if self.keys.len() >= self.max_item_count {
                            return Err(PageError::Full);
                        }
                        let kk = k.dup();
                        proof {
                            assert forall|j: int| 0 <= j < old_keys.len() implies kk.lt_spec(
                                #[trigger] old_keys[j],
                            ) by {
                                K::lemma_order(kk, *k, old_keys[j]);
                            }
                            lemma_sorted_insert(old_keys, kk, 0);
                        }
                        self.keys.insert(0, kk);
                        self.values.insert(0, v.dup());
                        Ok(())
                    },
                    Pos::Right => {
                        proof {
                            assert forall|j: int| 0 <= j <= i implies (#[trigger] old_keys[j])
                                .lt_spec(*k) by {
                                if j < i {
                                    K::lemma_order(old_keys[j], old_keys[i as int], *k);
                                }
                            }
                            assert forall|j: int|
                                i + 1 <= j < old_keys.len() implies k.lt_spec(
                                #[trigger] old_keys[j],
                            ) by {
                                if j > i + 1 {
                                    K::lemma_order(*k, old_keys[i + 1], old_keys[j]);
                                }
                            }
                            lemma_bounds_locate(old_keys, *k, i + 1);
                        }
                        if self.keys.len() >= self.max_item_count {
                            return Err(PageError::Full);
                        }
                        let kk = k.dup();
                        proof {
                            assert forall|j: int| 0 <= j <= i implies (#[trigger] old_keys[j])
                                .lt_spec(kk) by {
                                K::lemma_order(kk, *k, old_keys[j]);
                            }
                            assert forall|j: int|
                                i + 1 <= j < old_keys.len() implies kk.lt_spec(
                                #[trigger] old_keys[j],
                            ) by {
                                K::lemma_order(kk, *k, old_keys[j]);
                            }
                            lemma_sorted_insert(old_keys, kk, i + 1);
                        }
                        self.keys.insert(i + 1, kk);
                        self.values.insert(i + 1, v.dup());
                        Ok(())
                    },
                }
            },
        }
    }

    /// Overwrites the child pointer at slot `i` of an internal page; fails
    /// with `OutOfRange` past the pointer count.
    pub fn set_ptr_at(&mut self, i: usize, ptr: u32) -> (r: Result<(), PageError>)
        requires
            old(self).page_type == PageType::INTERNAL,
            old(self).inv(),
        ensures
            final(self).index == old(self).index,
            final(self).page_type == old(self).page_type,
            final(self).spec_max_items() == old(self).spec_max_items(),
            final(self).spec_keys() == old(self).spec_keys(),
            final(self).spec_values() == old(self).spec_values(),
            final(self).inv(),
            r is Err <==> i >= old(self).spec_ptrs().len(),
            match r {
                Ok(()) => final(self).spec_ptrs() == old(self).spec_ptrs().update(i as int, ptr),
                Err(e) => e == PageError::OutOfRange && *final(self) == *old(self),
            },
    {
        if i >= self.ptrs.len() {
            return Err(PageError::OutOfRange);
        }
        let slot = &mut self.ptrs[i];
        *slot = ptr;
        proof {
            assert(final(self).spec_ptrs() =~= old(self).spec_ptrs().update(i as int, ptr));
        }
        Ok(())
    }

    /// Inserts a separator key and the child pointer to its right into an
    /// internal page, keeping the keys ascending: a key at slot `i` owns
    /// the pointer at slot `i + 1`. A key already present overwrites both.
    /// A full page without that key fails with `Full`, exactly then. An
    /// empty internal page must have its leftmost pointer set first.
    pub fn insert_ptr(&mut self, k: &K, ptr: u32) -> (r: Result<(), PageError>)
        requires
            old(self).page_type == PageType::INTERNAL,
            old(self).inv(),
            k.wf(),
            old(self).spec_keys().len() == 0 ==> old(self).spec_ptrs()[0] != 0,
        ensures
            final(self).index == old(self).index,
            final(self).page_type == old(self).page_type,
            final(self).spec_max_items() == old(self).spec_max_items(),
            final(self).spec_values() == old(self).spec_values(),
            final(self).inv(),
            r is Err <==> old(self).spec_keys().len() >= old(self).spec_max_items() && !has_key(
                old(self).spec_keys(),
                *k,
            ),
            match r {
                Ok(()) => if has_key(old(self).spec_keys(), *k) {
                    exists|i: int|
                        {
                            &&& 0 <= i < old(self).spec_keys().len()
                            &&& (#[trigger] old(self).spec_keys()[i]).eq_spec(*k)
                            &&& final(self).spec_keys() == old(self).spec_keys().update(
                                i,
                                final(self).spec_keys()[i],
                            )
                            &&& final(self).spec_keys()[i].eq_spec(*k)
                            &&& final(self).spec_ptrs() == old(self).spec_ptrs().update(
                                i + 1,
                                ptr,
                            )
                        }
                } else {
                    {
                        let p = insert_pos(old(self).spec_keys(), *k);
                        &&& 0 <= p <= old(self).spec_keys().len()
                        &&& old(self).spec_keys().len() < old(self).spec_max_items()
                        &&& final(self).spec_keys() == old(self).spec_keys().insert(
                            p,
                            final(self).spec_keys()[p],
                        )
                        &&& final(self).spec_keys()[p].eq_spec(*k)
                        &&& final(self).spec_ptrs() == old(self).spec_ptrs().insert(p + 1, ptr)
                    }
                },
                Err(e) => e == PageError::Full && *final(self) == *old(self),
            },
            forall|j: int|
                0 <= j < final(self).spec_ptrs().len() ==> old(self).spec_ptrs().contains(
                    #[trigger] final(self).spec_ptrs()[j],
                ) || final(self).spec_ptrs()[j] == ptr,
    {
        let ghost old_keys = self.spec_keys();
        let ghost old_ptrs = self.spec_ptrs();
        match self.find(k) {
            None => {
                self.keys.push(k.dup());
                self.ptrs.push(ptr);
                proof {
                    assert(final(self).spec_keys() =~= old_keys.insert(
                        0,
                        final(self).spec_keys()[0],
                    ));
                    assert(final(self).spec_ptrs() =~= old_ptrs.insert(1, ptr));
                    lemma_insert_elements(old_ptrs, 1, ptr);
                }
                Ok(())
            },
            Some((i, pos)) => {
                match pos {
                    Pos::Current => {
                        let kk = k.dup();
                        proof {
                            K::lemma_eq_spec(old_keys[i as int], *k, *k);
                            K::lemma_eq_spec(kk, *k, old_keys[i as int]);
                            lemma_sorted_update_eq(old_keys, i as int, kk);
                        }
                        let slot = &mut self.keys[i];
                        *slot = kk;
                        let pslot = &mut self.ptrs[i + 1];
                        *pslot = ptr;
                        proof {
                            assert(final(self).spec_keys() =~= old_keys.update(i as int, kk));
                            assert(final(self).spec_ptrs() =~= old_ptrs.update(i + 1, ptr));
                            lemma_update_elements(old_ptrs, i + 1, ptr);
                        }
                        Ok(())
                    },
                    Pos::Left => {
                        proof {
                            assert forall|j: int| 0 <= j < old_keys.len() implies k.lt_spec(
                                #[trigger] old_keys[j],
                            ) by {
                                if j > 0 {
                                    K::lemma_order(*k, old_keys[0], old_keys[j]);
                                }
                            }
                            lemma_bounds_locate(old_keys, *k, 0);
                        }
                        if self.keys.len() >= self.max_item_count {
                            proof {
                                lemma_contains_self(old_ptrs);
                            }
                            return Err(PageError::Full);
                        }
                        let kk = k.dup();
                        proof {
                            assert forall|j: int| 0 <= j < old_keys.len() implies kk.lt_spec(
                                #[trigger] old_keys[j],
                            ) by {
                                K::lemma_order(kk, *k, old_keys[j]);
                            }
                            lemma_sorted_insert(old_keys, kk, 0);
                        }
                        self.keys.insert(0, kk);
                        self.ptrs.insert(1, ptr);
                        proof {
                            lemma_insert_elements(old_ptrs, 1, ptr);
                        }
                        Ok(())
                    },
                    Pos::Right => {
                        proof {
                            assert forall|j: int| 0 <= j <= i implies (#[trigger] old_keys[j])
                                .lt_spec(*k) by {
                                if j < i {
                                    K::lemma_order(old_keys[j], old_keys[i as int], *k);
                                }
                            }
                            assert forall|j: int|
                                i + 1 <= j < old_keys.len() implies k.lt_spec(
                                #[trigger] old_keys[j],
                            ) by {
                                if j > i + 1 {
                                    K::lemma_order(*k, old_keys[i + 1], old_keys[j]);
                                }
                            }
                            lemma_bounds_locate(old_keys, *k, i + 1);
                        }
                        if self.keys.len() >= self.max_item_count {
                            proof {
                                lemma_contains_self(old_ptrs);
                            }
                            return Err(PageError::Full);
                        }
                        let kk = k.dup();
                        proof {
                            assert forall|j: int| 0 <= j <= i implies (#[trigger] old_keys[j])
                                .lt_spec(kk) by {
                                K::lemma_order(kk, *k, old_keys[j]);
                            }
                            assert forall|j: int|
                                i + 1 <= j < old_keys.len() implies kk.lt_spec(
                                #[trigger] old_keys[j],
                            ) by {
                                K::lemma_order(kk, *k, old_keys[j]);
                            }
                            lemma_sorted_insert(old_keys, kk, i + 1);
                        }
                        self.keys.insert(i + 1, kk);
                        self.ptrs.insert(i + 2, ptr);
                        proof {
                            lemma_insert_elements(old_ptrs, i + 2, ptr);
                        }
                        Ok(())
                    },
                }
            },
        }
    }

    /// Splits a full leaf around a new key/value pair: the combined sorted
    /// sequence of the old items and the pair is cut at its upper half's
    /// start; the lower half stays, the upper half moves into `other`, and
    /// the returned separator is the first key of `other`, to be promoted
    /// into the parent.
    pub fn split_leaf_into(&mut self, other: &mut Page<K, V>, k: &K, v: &V) -> (sep: K)
        requires
            old(self).page_type == PageType::LEAF,
            old(self).inv(),
            old(self).spec_keys().len() == old(self).spec_max_items(),
            !has_key(old(self).spec_keys(), *k),
            k.wf(),
            v.wf(),
            old(other).page_type == PageType::LEAF,
            old(other).inv(),
            old(other).spec_keys().len() == 0,
        ensures
            final(self).index == old(self).index,
            final(self).page_type == PageType::LEAF,
            final(self).spec_max_items() == old(self).spec_max_items(),
            final(self).inv(),
            final(other).index == old(other).index,
            final(other).page_type == PageType::LEAF,
            final(other).spec_max_items() == old(other).spec_max_items(),
            final(other).inv(),
            ({
                let p = insert_pos(old(self).spec_keys(), *k);
                let n = old(self).spec_keys().len() as int + 1;
                let cut = (n + 2) / 2;
                let kk = if p < cut {
                    final(self).spec_keys()[p]
                } else {
                    final(other).spec_keys()[p - cut]
                };
                let vv = if p < cut {
                    final(self).spec_values()[p]
                } else {
                    final(other).spec_values()[p - cut]
                };
                let comb = old(self).spec_keys().insert(p, kk);
                let combv = old(self).spec_values().insert(p, vv);
                &&& 0 <= p <= old(self).spec_keys().len()
                &&& kk.eq_spec(*k)
                &&& vv.eq_spec(*v)
                &&& final(self).spec_keys() == comb.take(cut)
                &&& final(self).spec_values() == combv.take(cut)
                &&& final(other).spec_keys() == comb.skip(cut)
                &&& final(other).spec_values() == combv.skip(cut)
                &&& final(self).spec_keys().len() == cut
                &&& final(other).spec_keys().len() == n - cut
                &&& 2 <= cut
                &&& 1 <= n - cut
            }),
            sep.wf(),
            sep.eq_spec(final(other).spec_keys()[0]),
            forall|j: int|
                0 <= j < final(self).spec_keys().len() ==> (#[trigger] final(self).spec_keys()[j])
                    .lt_spec(sep),
            forall|j: int|
                1 <= j < final(other).spec_keys().len() ==> sep.lt_spec(
                    #[trigger] final(other).spec_keys()[j],
                ),
    {
        let ghost old_keys = self.spec_keys();
        let ghost old_values = self.spec_values();
        let p = self.locate_slot(k);
        let kk = k.dup();
        let vv = v.dup();
        proof {
            assert forall|j: int| 0 <= j < p implies (#[trigger] old_keys[j]).lt_spec(kk) by {
                K::lemma_order(kk, *k, old_keys[j]);
            }
            assert forall|j: int| p <= j < old_keys.len() implies kk.lt_spec(
                #[trigger] old_keys[j],
            ) by {
                K::lemma_order(kk, *k, old_keys[j]);
            }
            lemma_sorted_insert(old_keys, kk, p as int);
            old_keys.insert_ensures(p as int, kk);
            old_values.insert_ensures(p as int, vv);
        }
        self.keys.insert(p, kk);
        self.values.insert(p, vv);
        let ghost comb = old_keys.insert(p as int, kk);
        let ghost combv = old_values.insert(p as int, vv);
        proof {
            assert forall|j: int| 0 <= j < comb.len() implies (#[trigger] comb[j]).wf() by {
                if j < p {
                    assert(comb[j] == old_keys[j]);
                } else if j > p {
                    assert(comb[j] == old_keys[j - 1]);
                }
            }
            assert forall|j: int| 0 <= j < combv.len() implies (#[trigger] combv[j]).wf() by {
                if j < p {
                    assert(combv[j] == old_values[j]);
                } else if j > p {
                    assert(combv[j] == old_values[j - 1]);
                }
            }
        }
        let n = self.keys.len();
        let cut = (n + 2) / 2;
        let tail_k = self.keys.split_off(cut);
        let tail_v = self.values.split_off(cut);
        other.keys = tail_k;
        other.values = tail_v;
        let sep = other.keys[0].dup();
        proof {
            lemma_sorted_subrange(comb, 0, cut as int);
            lemma_sorted_subrange(comb, cut as int, n as int);
            lemma_wf_subrange(comb, 0, cut as int);
            lemma_wf_subrange(comb, cut as int, n as int);
            lemma_wf_subrange(combv, 0, cut as int);
            lemma_wf_subrange(combv, cut as int, n as int);
            let ks = self.spec_keys();
            let ko = other.spec_keys();
            assert(ks == comb.take(cut as int));
            assert(ko == comb.skip(cut as int));
            assert(ko[0] == comb[cut as int]);
            assert forall|j: int| 0 <= j < ks.len() implies (#[trigger] ks[j]).lt_spec(sep) by {
                assert(ks[j] == comb[j]);
                assert(comb[j].lt_spec(comb[cut as int]));
                K::lemma_order(sep, comb[cut as int], comb[j]);
            }
            assert forall|j: int| 1 <= j < ko.len() implies sep.lt_spec(#[trigger] ko[j]) by {
                assert(ko[j] == comb[cut + j]);
                assert(comb[cut as int].lt_spec(comb[cut + j]));
                K::lemma_order(sep, comb[cut as int], comb[cut + j]);
            }
        }
        sep
    }

    /// Splits a full internal page around a new separator/pointer pair:
    /// the combined sorted key sequence is cut at its median, which is
    /// returned for promotion and stored in neither half; the pointers
    /// right of the median move into `other`.
    pub fn split_internal_into(&mut self, other: &mut Page<K, V>, k: &K, ptr: u32) -> (sep: K)
        requires
            old(self).page_type == PageType::INTERNAL,
            old(self).inv(),
            old(self).spec_keys().len() == old(self).spec_max_items(),
            !has_key(old(self).spec_keys(), *k),
            k.wf(),
            old(other).page_type == PageType::INTERNAL,
            old(other).inv(),
            old(other).spec_keys().len() == 0,
        ensures
            final(self).index == old(self).index,
            final(self).page_type == PageType::INTERNAL,
            final(self).spec_max_items() == old(self).spec_max_items(),
            final(self).inv(),
            final(other).index == old(other).index,
            final(other).page_type == PageType::INTERNAL,
            final(other).spec_max_items() == old(other).spec_max_items(),
            final(other).inv(),
            ({
                let p = insert_pos(old(self).spec_keys(), *k);
                let n = old(self).spec_keys().len() as int + 1;
                let up = (n - 1) / 2;
                let kk = if p < up {
                    final(self).spec_keys()[p]
                } else if p == up {
                    sep
                } else {
                    final(other).spec_keys()[p - up - 1]
                };
                let comb = old(self).spec_keys().insert(p, kk);
                let combp = old(self).spec_ptrs().insert(p + 1, ptr);
                &&& 0 <= p <= old(self).spec_keys().len()
                &&& kk.eq_spec(*k)
                &&& final(self).spec_keys() == comb.take(up)
                &&& final(self).spec_ptrs() == combp.take(up + 1)
                &&& final(other).spec_keys() == comb.skip(up + 1)
                &&& final(other).spec_ptrs() == combp.skip(up + 1)
                &&& sep == comb[up]
                &&& final(self).spec_keys().len() == up
                &&& final(other).spec_keys().len() == n - up - 1
                &&& 1 <= up
                &&& 1 <= n - up - 1
            }),
            sep.wf(),
            forall|j: int|
                0 <= j < final(self).spec_keys().len() ==> (#[trigger] final(self).spec_keys()[j])
                    .lt_spec(sep),
            forall|j: int|
                0 <= j < final(other).spec_keys().len() ==> sep.lt_spec(
                    #[trigger] final(other).spec_keys()[j],
                ),
            forall|j: int|
                0 <= j < final(self).spec_ptrs().len() ==> old(self).spec_ptrs().contains(
                    #[trigger] final(self).spec_ptrs()[j],
                ) || final(self).spec_ptrs()[j] == ptr,
            forall|j: int|
                0 <= j < final(other).spec_ptrs().len() ==> old(self).spec_ptrs().contains(
                    #[trigger] final(other).spec_ptrs()[j],
                ) || final(other).spec_ptrs()[j] == ptr,
    {
        let ghost old_keys = self.spec_keys();
        let ghost old_ptrs = self.spec_ptrs();
        let p = self.locate_slot(k);
        let kk = k.dup();
        proof {
            assert forall|j: int| 0 <= j < p implies (#[trigger] old_keys[j]).lt_spec(kk) by {
                K::lemma_order(kk, *k, old_keys[j]);
            }
            assert forall|j: int| p <= j < old_keys.len() implies kk.lt_spec(
                #[trigger] old_keys[j],
            ) by {
                K::lemma_order(kk, *k, old_keys[j]);
            }
            lemma_sorted_insert(old_keys, kk, p as int);
            old_keys.insert_ensures(p as int, kk);
            old_ptrs.insert_ensures(p + 1, ptr);
        }
        self.keys.insert(p, kk);
        self.ptrs.insert(p + 1, ptr);
        let ghost comb = old_keys.insert(p as int, kk);
        let ghost combp = old_ptrs.insert(p + 1, ptr);
        proof {
            assert forall|j: int| 0 <= j < comb.len() implies (#[trigger] comb[j]).wf() by {
                if j < p {
                    assert(comb[j] == old_keys[j]);
                } else if j > p {
                    assert(comb[j] == old_keys[j - 1]);
                }
            }
            lemma_insert_elements(old_ptrs, p + 1, ptr);
        }
        let n = self.keys.len();
        let up = (n - 1) / 2;
        let tail_k = self.keys.split_off(up + 1);
        let tail_p = self.ptrs.split_off(up + 1);
        let sep = match self.keys.pop() {
            Some(x) => x,
            None => {
                proof {
                    assert(false);
                }
                k.dup()
            },
        };
        other.keys = tail_k;
        other.ptrs = tail_p;
        proof {
            let ks = self.spec_keys();
            let ko = other.spec_keys();
            let ps = self.spec_ptrs();
            let po = other.spec_ptrs();
            assert(ks =~= comb.take(up as int));
            assert(sep == comb[up as int]);
            lemma_sorted_subrange(comb, 0, up as int);
            lemma_sorted_subrange(comb, up + 1, n as int);
            lemma_wf_subrange(comb, 0, up as int);
            lemma_wf_subrange(comb, up + 1, n as int);
            assert forall|j: int| 0 <= j < ks.len() implies (#[trigger] ks[j]).lt_spec(sep) by {
                assert(ks[j] == comb[j]);
            }
            assert forall|j: int| 0 <= j < ko.len() implies sep.lt_spec(#[trigger] ko[j]) by {
                assert(ko[j] == comb[up + 1 + j]);
            }
            assert forall|j: int|
                0 <= j < ps.len() implies old_ptrs.contains(#[trigger] ps[j]) || ps[j] == ptr by {
                assert(ps[j] == combp[j]);
            }
            assert forall|j: int|
                0 <= j < po.len() implies old_ptrs.contains(#[trigger] po[j]) || po[j] == ptr by {
                assert(po[j] == combp[up + 1 + j]);
            }
        }
        sep
    }

    /// The on-disk form of a page: byte 0 holds the kind tag, bytes 4..8
    /// the item count (or root index), and the key, value and pointer
    /// arrays sit at their layout offsets, each slot holding its item's
    /// encoding.
    pub open spec fn spec_repr(self, b: Seq<u8>) -> bool {
        let ks = K::spec_bin_size();
        let vs = V::spec_bin_size();
        let max = self.spec_max_items();
        &&& b.len() == PAGE_SIZE
        &&& b[0] == spec_tag(self.page_type)
        &&& match self.page_type {
            PageType::META => {
                &&& b.subrange(4, 8) == self.spec_meta_root().spec_encode()
                &&& b.subrange(8, 12) == self.spec_meta_total().spec_encode()
            },
            PageType::LEAF => {
                &&& b.subrange(4, 8) == (self.spec_keys().len() as u32).spec_encode()
                &&& forall|j: int|
                    0 <= j < self.spec_keys().len() ==> b.subrange(8 + j * ks, 8 + j * ks + ks)
                        == (#[trigger] self.spec_keys()[j]).spec_encode()
                &&& forall|j: int|
                    0 <= j < self.spec_values().len() ==> b.subrange(
                        8 + max * ks + j * vs,
                        8 + max * ks + j * vs + vs,
                    ) == (#[trigger] self.spec_values()[j]).spec_encode()
            },
            PageType::INTERNAL => {
                &&& b.subrange(4, 8) == (self.spec_keys().len() as u32).spec_encode()
                &&& forall|j: int|
                    0 <= j < self.spec_keys().len() ==> b.subrange(8 + j * ks, 8 + j * ks + ks)
                        == (#[trigger] self.spec_keys()[j]).spec_encode()
                &&& forall|j: int|
                    0 <= j < self.spec_ptrs().len() ==> b.subrange(
                        8 + max * ks + j * (PTR_SIZE as int),
                        8 + max * ks + j * (PTR_SIZE as int) + PTR_SIZE,
                    ) == (#[trigger] self.spec_ptrs()[j]).spec_encode()
            },
        }
    }

    /// What reading a page back out of its bytes pins down: the kind from
    /// the tag byte, and for every stored item an encoding equal to the
    /// canonical form of its slot's window.
    pub open spec fn spec_repr_canon(self, b: Seq<u8>) -> bool {
        let ks = K::spec_bin_size();
        let vs = V::spec_bin_size();
        let max = self.spec_max_items();
        &&& b.len() == PAGE_SIZE
        &&& self.page_type == spec_type_of_tag(b[0])
        &&& match self.page_type {
            PageType::META => {
                &&& b.subrange(4, 8) == self.spec_meta_root().spec_encode()
                &&& b.subrange(8, 12) == self.spec_meta_total().spec_encode()
            },
            PageType::LEAF => {
                &&& b.subrange(4, 8) == (self.spec_keys().len() as u32).spec_encode()
                &&& forall|j: int|
                    0 <= j < self.spec_keys().len() ==> (#[trigger] self.spec_keys()[
                    j]).spec_encode() == K::spec_canon(b.subrange(8 + j * ks, 8 + j * ks + ks))
                &&& forall|j: int|
                    0 <= j < self.spec_values().len() ==> (#[trigger] self.spec_values()[
                    j]).spec_encode() == V::spec_canon(
                        b.subrange(8 + max * ks + j * vs, 8 + max * ks + j * vs + vs),
                    )
            },
            PageType::INTERNAL => {
                &&& b.subrange(4, 8) == (self.spec_keys().len() as u32).spec_encode()
                &&& forall|j: int|
                    0 <= j < self.spec_keys().len() ==> (#[trigger] self.spec_keys()[
                    j]).spec_encode() == K::spec_canon(b.subrange(8 + j * ks, 8 + j * ks + ks))
                &&& forall|j: int|
                    0 <= j < self.spec_ptrs().len() ==> b.subrange(
                        8 + max * ks + j * (PTR_SIZE as int),
                        8 + max * ks + j * (PTR_SIZE as int) + PTR_SIZE,
                    ) == (#[trigger] self.spec_ptrs()[j]).spec_encode()
            },
        }
    }

    /// The page kind a tag byte announces: bit 0 marks the meta page,
    /// bit 1 an internal page, neither a leaf.
    fn get_page_type(tag: u8) -> (pt: PageType)
        ensures
            pt == spec_type_of_tag(tag),
    {
        if tag & 0x01 == 1 {
            PageType::META
        } else if tag & 0x02 > 0 {
            PageType::INTERNAL
        } else {
            PageType::LEAF
        }
    }

    /// The page's 4096 on-disk bytes, ready to be written at offset
    /// `index * PAGE_SIZE` of the file.
    pub fn to_bytes(&self) -> (out: Vec<u8>)
        requires
            self.inv(),
        ensures
            out@.len() == PAGE_SIZE,
            self.spec_repr(out@),
    {
        let mut out: Vec<u8> = vec![0u8; PAGE_SIZE];
        match self.page_type {
            PageType::META => {
                out[0] = 1u8;
                match self.meta_root.encode(&mut out, 4) {
                    Ok(_) => {},
                    Err(_) => {
                        proof {
                            assert(false);
                        }
                    },
                }
                let ghost mid = out@;
                match self.meta_total.encode(&mut out, 8) {
                    Ok(_) => {},
                    Err(_) => {
                        proof {
                            assert(false);
                        }
                    },
                }
                proof {
                    assert(out@.subrange(4, 8) =~= mid.subrange(4, 8));
                }
                out
            },
            PageType::LEAF => {
                let count32 = self.keys.len() as u32;
                match count32.encode(&mut out, 4) {
                    Ok(_) => {},
                    Err(_) => {
                        proof {
                            assert(false);
                        }
                    },
                }
                let ghost after_count = out@;
                let ks = K::bin_size();
                let vs = V::bin_size();
                let maxi = self.max_item_count;
                proof {
                    let m = maxi as int;
                    let ksi = K::spec_bin_size();
                    let vsi = V::spec_bin_size();
                    vstd::arithmetic::mul::lemma_mul_is_distributive_add(m, ksi, vsi);
                    vstd::arithmetic::mul::lemma_mul_nonnegative(m, vsi);
                    vstd::arithmetic::mul::lemma_mul_nonnegative(m, ksi);
                    vstd::arithmetic::mul::lemma_mul_inequality(
                        self.spec_keys().len() as int,
                        m,
                        ksi,
                    );
                    vstd::arithmetic::mul::lemma_mul_inequality(
                        self.spec_values().len() as int,
                        m,
                        vsi,
                    );
                }
                match encode_all(&self.keys, &mut out, 8, ks) {
                    Ok(_) => {},
                    Err(_) => {
                        proof {
                            assert(false);
                        }
                    },
                }
                let ghost after_keys = out@;
                let vbase = 8 + maxi * ks;
                match encode_all(&self.values, &mut out, vbase, vs) {
                    Ok(_) => {},
                    Err(_) => {
                        proof {
                            assert(false);
                        }
                    },
                }
                proof {
                    let ksi = K::spec_bin_size();
                    let m = maxi as int;
                    assert(out@.subrange(4, 8) =~= after_count.subrange(4, 8));
                    assert forall|j: int|
                        0 <= j < self.spec_keys().len() implies out@.subrange(
                        8 + j * ksi,
                        8 + j * ksi + ksi,
                    ) == (#[trigger] self.spec_keys()[j]).spec_encode() by {
                        vstd::arithmetic::mul::lemma_mul_inequality(j + 1, m, ksi);
                        vstd::arithmetic::mul::lemma_mul_is_distributive_add_other_way(ksi, j, 1);
                        vstd::arithmetic::mul::lemma_mul_nonnegative(j, ksi);
                        assert(out@.subrange(8 + j * ksi, 8 + j * ksi + ksi) =~= after_keys.subrange(
                            8 + j * ksi,
                            8 + j * ksi + ksi,
                        ));
                    }
                }
                out
            },
            PageType::INTERNAL => {
                let count32 = self.keys.len() as u32;
                match count32.encode(&mut out, 4) {
                    Ok(_) => {},
                    Err(_) => {
                        proof {
                            assert(false);
                        }
                    },
                }
                let ghost after_count = out@;
                out[0] = 2u8;
                let ghost after_tag = out@;
                let ks = K::bin_size();
                let maxi = self.max_item_count;
                proof {
                    let m = maxi as int;
                    let ksi = K::spec_bin_size();
                    let psi = PTR_SIZE as int;
                    vstd::arithmetic::mul::lemma_mul_is_distributive_add(m, ksi, psi);
                    vstd::arithmetic::mul::lemma_mul_nonnegative(m, psi);
                    vstd::arithmetic::mul::lemma_mul_nonnegative(m, ksi);
                    vstd::arithmetic::mul::lemma_mul_inequality(
                        self.spec_keys().len() as int,
                        m,
                        ksi,
                    );
                    vstd::arithmetic::mul::lemma_mul_inequality(
                        self.spec_ptrs().len() as int,
                        m + 1,
                        psi,
                    );
                    vstd::arithmetic::mul::lemma_mul_is_distributive_add_other_way(psi, m, 1);
                    assert(after_tag.subrange(4, 8) =~= after_count.subrange(4, 8));
                }
                match encode_all(&self.keys, &mut out, 8, ks) {
                    Ok(_) => {},
                    Err(_) => {
                        proof {
                            assert(false);
                        }
                    },
                }
                let ghost after_keys = out@;
                let pbase = 8 + maxi * ks;
                match encode_all(&self.ptrs, &mut out, pbase, PTR_SIZE) {
                    Ok(_) => {},
                    Err(_) => {
                        proof {
                            assert(false);
                        }
                    },
                }
                proof {
                    let ksi = K::spec_bin_size();
                    let m = maxi as int;
                    assert(out@.subrange(4, 8) =~= after_tag.subrange(4, 8));
                    assert forall|j: int|
                        0 <= j < self.spec_keys().len() implies out@.subrange(
                        8 + j * ksi,
                        8 + j * ksi + ksi,
                    ) == (#[trigger] self.spec_keys()[j]).spec_encode() by {
                        vstd::arithmetic::mul::lemma_mul_inequality(j + 1, m, ksi);
                        vstd::arithmetic::mul::lemma_mul_is_distributive_add_other_way(ksi, j, 1);
                        vstd::arithmetic::mul::lemma_mul_nonnegative(j, ksi);
                        assert(out@.subrange(8 + j * ksi, 8 + j * ksi + ksi) =~= after_keys.subrange(
                            8 + j * ksi,
                            8 + j * ksi + ksi,
                        ));
                    }
                }
                out
            },
        }
    }

    /// A page read back from its 4096 on-disk bytes: the kind comes from
    /// the tag byte, the items are decoded out of their slots, and a leaf
    /// or internal page must carry a fitting item count and ascending
    /// keys.
    pub fn from_bytes(index: u32, data: &Vec<u8>) -> (r: Result<Self, PageError>)
        ensures
            match r {
                Ok(p) => {
                    &&& p.inv()
                    &&& p.index == index
                    &&& data@.len() == PAGE_SIZE
                    &&& p.spec_repr_canon(data@)
                },
                Err(e) => e == PageError::Malformed || e == PageError::InvariantViolation,
            },
            forall|q: Page<K, V>| q.inv() && #[trigger] q.spec_repr(data@) ==> r is Ok,
    {
        if data.len() != PAGE_SIZE {
            return Err(PageError::Malformed);
        }
        let pt = Self::get_page_type(data[0]);
        let mut page = match Page::<K, V>::new(index, pt) {
            Ok(p) => p,
            Err(e) => {
                proof {
                    assert forall|q: Page<K, V>| !(q.inv() && #[trigger] q.spec_repr(data@)) by {
                        if q.inv() && q.spec_repr(data@) {
                            lemma_tag_round(q.page_type);
                        }
                    }
                }
                return Err(e);
            },
        };
        match pt {
            PageType::META => {
                let root = match u32::decode(data, 4) {
                    Ok((v, _)) => v,
                    Err(_) => {
                        proof {
                            assert(false);
                        }
                        return Err(PageError::Malformed);
                    },
                };
                let total = match u32::decode(data, 8) {
                    Ok((v, _)) => v,
                    Err(_) => {
                        proof {
                            assert(false);
                        }
                        return Err(PageError::Malformed);
                    },
                };
                page.set_root_index(root);
                page.set_total_page(total);
                Ok(page)
            },
            PageType::LEAF => {
                let count32 = match u32::decode(data, 4) {
                    Ok((v, _)) => v,
                    Err(_) => {
                        proof {
                            assert(false);
                        }
                        return Err(PageError::Malformed);
                    },
                };
                let count = count32 as usize;
                if count > page.max_item_count {
                    proof {
                        assert forall|q: Page<K, V>|
                            !(q.inv() && #[trigger] q.spec_repr(data@)) by {
                            if q.inv() && q.spec_repr(data@) {
                                lemma_tag_round(q.page_type);
                                lemma_repr_count(q, data@, count32);
                            }
                        }
                    }
                    return Err(PageError::Malformed);
                }
                let ks = K::bin_size();
                let vs = V::bin_size();
                let maxi = page.max_item_count;
                proof {
                    let m = maxi as int;
                    let ksi = K::spec_bin_size();
                    let vsi = V::spec_bin_size();
                    vstd::arithmetic::mul::lemma_mul_is_distributive_add(m, ksi, vsi);
                    vstd::arithmetic::mul::lemma_mul_nonnegative(m, vsi);
                    vstd::arithmetic::mul::lemma_mul_nonnegative(m, ksi);
                    vstd::arithmetic::mul::lemma_mul_inequality(count as int, m, ksi);
                    vstd::arithmetic::mul::lemma_mul_inequality(count as int, m, vsi);
                }
                let keys: Vec<K> = match crate::byte::decode_all::<K>(data, 8, ks, count) {
                    Ok(v) => v,
                    Err(_) => {
                        proof {
                            assert forall|q: Page<K, V>|
                                !(q.inv() && #[trigger] q.spec_repr(data@)) by {
                                if q.inv() && q.spec_repr(data@) {
                                    lemma_tag_round(q.page_type);
                                    lemma_repr_count(q, data@, count32);
                                    assert forall|j: int|
                                        0 <= j < count implies #[trigger] K::spec_decodable(
                                        data@.subrange(
                                            8 + j * K::spec_bin_size(),
                                            8 + j * K::spec_bin_size() + K::spec_bin_size(),
                                        ),
                                    ) by {
                                        K::lemma_canon_encode(q.spec_keys()[j]);
                                    }
                                    assert(false);
                                }
                            }
                        }
                        return Err(PageError::Malformed);
                    },
                };
                let vbase = 8 + maxi * ks;
                let values: Vec<V> = match crate::byte::decode_all::<V>(data, vbase, vs, count) {
                    Ok(v) => v,
                    Err(_) => {
                        proof {
                            assert forall|q: Page<K, V>|
                                !(q.inv() && #[trigger] q.spec_repr(data@)) by {
                                if q.inv() && q.spec_repr(data@) {
                                    lemma_tag_round(q.page_type);
                                    lemma_repr_count(q, data@, count32);
                                    assert forall|j: int|
                                        0 <= j < count implies #[trigger] V::spec_decodable(
                                        data@.subrange(
                                            8 + (maxi as int) * K::spec_bin_size() + j
                                                * V::spec_bin_size(),
                                            8 + (maxi as int) * K::spec_bin_size() + j
                                                * V::spec_bin_size() + V::spec_bin_size(),
                                        ),
                                    ) by {
                                        V::lemma_canon_encode(q.spec_values()[j]);
                                    }
                                    assert(false);
                                }
                            }
                        }
                        return Err(PageError::Malformed);
                    },
                };
                if !keys_ascending(&keys) {
                    proof {
                        assert forall|q: Page<K, V>|
                            !(q.inv() && #[trigger] q.spec_repr(data@)) by {
                            if q.inv() && q.spec_repr(data@) {
                                lemma_tag_round(q.page_type);
                                lemma_repr_count(q, data@, count32);
                                assert forall|j: int|
                                    0 <= j < count implies (#[trigger] keys@[j]).eq_spec(
                                    q.spec_keys()[j],
                                ) by {
                                    K::lemma_canon_encode(q.spec_keys()[j]);
                                    K::lemma_encode_eq(keys@[j], q.spec_keys()[j]);
                                }
                                lemma_sorted_pointwise_eq(q.spec_keys(), keys@);
                                assert(false);
                            }
                        }
                    }
                    return Err(PageError::Malformed);
                }
                page.keys = keys;
                page.values = values;
                Ok(page)
            },
            PageType::INTERNAL => {
                let count32 = match u32::decode(data, 4) {
                    Ok((v, _)) => v,
                    Err(_) => {
                        proof {
                            assert(false);
                        }
                        return Err(PageError::Malformed);
                    },
                };
                let count = count32 as usize;
                if count > page.max_item_count {
                    proof {
                        assert forall|q: Page<K, V>|
                            !(q.inv() && #[trigger] q.spec_repr(data@)) by {
                            if q.inv() && q.spec_repr(data@) {
                                lemma_tag_round(q.page_type);
                                lemma_repr_count(q, data@, count32);
                            }
                        }
                    }
                    return Err(PageError::Malformed);
                }
                let ks = K::bin_size();
                let maxi = page.max_item_count;
                proof {
                    let m = maxi as int;
                    let ksi = K::spec_bin_size();
                    let psi = PTR_SIZE as int;
                    vstd::arithmetic::mul::lemma_mul_is_distributive_add(m, ksi, psi);
                    vstd::arithmetic::mul::lemma_mul_nonnegative(m, psi);
                    vstd::arithmetic::mul::lemma_mul_nonnegative(m, ksi);
                    vstd::arithmetic::mul::lemma_mul_inequality(count as int, m, ksi);
                    vstd::arithmetic::mul::lemma_mul_inequality(count as int + 1, m + 1, psi);
                    vstd::arithmetic::mul::lemma_mul_is_distributive_add_other_way(psi, m, 1);
                }
                let keys: Vec<K> = match crate::byte::decode_all::<K>(data, 8, ks, count) {
                    Ok(v) => v,
                    Err(_) => {
                        proof {
                            assert forall|q: Page<K, V>|
                                !(q.inv() && #[trigger] q.spec_repr(data@)) by {
                                if q.inv() && q.spec_repr(data@) {
                                    lemma_tag_round(q.page_type);
                                    lemma_repr_count(q, data@, count32);
                                    assert forall|j: int|
                                        0 <= j < count implies #[trigger] K::spec_decodable(
                                        data@.subrange(
                                            8 + j * K::spec_bin_size(),
                                            8 + j * K::spec_bin_size() + K::spec_bin_size(),
                                        ),
                                    ) by {
                                        K::lemma_canon_encode(q.spec_keys()[j]);
                                    }
                                    assert(false);
                                }
                            }
                        }
                        return Err(PageError::Malformed);
                    },
                };
                let pbase = 8 + maxi * ks;
                let ptrs: Vec<u32> = match crate::byte::decode_all::<u32>(
                    data,
                    pbase,
                    PTR_SIZE,
                    count + 1,
                ) {
                    Ok(v) => v,
                    Err(_) => {
                        proof {
                            assert forall|j: int|
                                0 <= j < count + 1 implies #[trigger] u32::spec_decodable(
                                data@.subrange(
                                    pbase + j * (PTR_SIZE as int),
                                    pbase + j * (PTR_SIZE as int) + PTR_SIZE,
                                ),
                            ) by {}
                            assert(false);
                        }
                        return Err(PageError::Malformed);
                    },
                };
                if !keys_ascending(&keys) {
                    proof {
                        assert forall|q: Page<K, V>|
                            !(q.inv() && #[trigger] q.spec_repr(data@)) by {
                            if q.inv() && q.spec_repr(data@) {
                                lemma_tag_round(q.page_type);
                                lemma_repr_count(q, data@, count32);
                                assert forall|j: int|
                                    0 <= j < count implies (#[trigger] keys@[j]).eq_spec(
                                    q.spec_keys()[j],
                                ) by {
                                    K::lemma_canon_encode(q.spec_keys()[j]);
                                    K::lemma_encode_eq(keys@[j], q.spec_keys()[j]);
                                }
                                lemma_sorted_pointwise_eq(q.spec_keys(), keys@);
                                assert(false);
                            }
                        }
                    }
                    return Err(PageError::Malformed);
                }
                page.keys = keys;
                page.ptrs = ptrs;
                Ok(page)
            },
        }
    }

    /// Whether the page holds a key the store treats as the searched one.
    pub fn contains_key(&self, k: &K) -> (r: bool)
        requires
            self.page_type != PageType::META,
            self.inv(),
        ensures
            r == has_key(self.spec_keys(), *k),
    {
        let ghost keys = self.spec_keys();
        match self.find(k) {
            None => false,
            Some((i, pos)) => match pos {
                Pos::Current => true,
                Pos::Left => {
                    proof {
                        assert forall|j: int| 0 <= j < keys.len() implies k.lt_spec(
                            #[trigger] keys[j],
                        ) by {
                            if j > 0 {
                                K::lemma_order(*k, keys[0], keys[j]);
                            }
                        }
                        lemma_bounds_locate(keys, *k, 0);
                    }
                    false
                },
                Pos::Right => {
                    proof {
                        assert forall|j: int| 0 <= j <= i implies (#[trigger] keys[j]).lt_spec(
                            *k,
                        ) by {
                            if j < i {
                                K::lemma_order(keys[j], keys[i as int], *k);
                            }
                        }
                        assert forall|j: int|
                            i + 1 <= j < keys.len() implies k.lt_spec(#[trigger] keys[j]) by {
                            if j > i + 1 {
                                K::lemma_order(*k, keys[i + 1], keys[j]);
                            }
                        }
                        lemma_bounds_locate(keys, *k, i + 1);
                    }
                    false
                },
            },
        }
    }

    /// The slot a key absent from the page would occupy, by binary search.
    fn locate_slot(&self, k: &K) -> (p: usize)
        requires
            self.page_type != PageType::META,
            self.inv(),
            self.spec_keys().len() > 0,
            !has_key(self.spec_keys(), *k),
        ensures
            p == insert_pos(self.spec_keys(), *k),
            p <= self.spec_keys().len(),
            forall|j: int| 0 <= j < p ==> (#[trigger] self.spec_keys()[j]).lt_spec(*k),
            forall|j: int|
                p <= j < self.spec_keys().len() ==> k.lt_spec(#[trigger] self.spec_keys()[j]),
    {
        let ghost keys = self.spec_keys();
        match self.find(k) {
            None => {
                proof {
                    assert(false);
                }
                0
            },
            Some((i, pos)) => match pos {
                Pos::Current => {
                    proof {
                        assert(false);
                    }
                    0
                },
                Pos::Left => {
                    proof {
                        assert forall|j: int| 0 <= j < keys.len() implies k.lt_spec(
                            #[trigger] keys[j],
                        ) by {
                            if j > 0 {
                                K::lemma_order(*k, keys[0], keys[j]);
                            }
                        }
                        lemma_bounds_locate(keys, *k, 0);
                    }
                    0
                },
                Pos::Right => {
                    proof {
                        assert forall|j: int| 0 <= j <= i implies (#[trigger] keys[j]).lt_spec(
                            *k,
                        ) by {
                            if j < i {
                                K::lemma_order(keys[j], keys[i as int], *k);
                            }
                        }
                        assert forall|j: int|
                            i + 1 <= j < keys.len() implies k.lt_spec(#[trigger] keys[j]) by {
                            if j > i + 1 {
                                K::lemma_order(*k, keys[i + 1], keys[j]);
                            }
                        }
                        lemma_bounds_locate(keys, *k, i + 1);
                    }
                    i + 1
                },
            },
        }
    }
}

/// Strict ascent is kept by every subrange.
pub proof fn lemma_sorted_subrange<K: KeyOrd>(s: Seq<K>, a: int, b: int)
    requires
        sorted_strict(s),
        0 <= a <= b <= s.len(),
    ensures
        sorted_strict(s.subrange(a, b)),
{
    let t = s.subrange(a, b);
    assert forall|i: int, j: int| 0 <= i < j < t.len() implies #[trigger] t[i].lt_spec(
        #[trigger] t[j],
    ) by {
        assert(t[i] == s[a + i]);
        assert(t[j] == s[a + j]);
    }
}

/// Storability is kept by every subrange.
pub proof fn lemma_wf_subrange<T: BinSizer>(s: Seq<T>, a: int, b: int)
    requires
        all_wf(s),
        0 <= a <= b <= s.len(),
    ensures
        all_wf(s.subrange(a, b)),
{
    let t = s.subrange(a, b);
    assert forall|i: int| 0 <= i < t.len() implies (#[trigger] t[i]).wf() by {
        assert(t[i] == s[a + i]);
    }
}

/// The tag byte a page kind is written as.
pub open spec fn spec_tag(pt: PageType) -> u8 {
    match pt {
        PageType::META => 1,
        PageType::INTERNAL => 2,
        PageType::LEAF => 0,
    }
}

/// The page kind a tag byte announces: bit 0 marks the meta page, bit 1
/// an internal page, neither a leaf.
pub open spec fn spec_type_of_tag(t: u8) -> PageType {
    if t & 0x01 == 1 {
        PageType::META
    } else if t & 0x02 > 0 {
        PageType::INTERNAL
    } else {
        PageType::LEAF
    }
}

/// Whether each key is strictly below its successor; with transitivity
/// that is strict ascent of the whole sequence.
pub fn keys_ascending<K: KeyOrd>(keys: &Vec<K>) -> (r: bool)
    ensures
        r == sorted_strict(keys@),
{
    let n = keys.len();
    let mut j: usize = 1;
    while j < n
        invariant
            n == keys@.len(),
            1 <= j || n == 0,
            j <= n || n == 0,
            forall|q: int| 0 <= q < j - 1 ==> (#[trigger] keys@[q]).lt_spec(keys@[q + 1]),
        decreases n - j,
    {
        if !keys[j - 1].key_lt(&keys[j]) {
            proof {
                assert(!sorted_strict(keys@)) by {
                    assert(!keys@[j - 1].lt_spec(keys@[j as int]));
                }
            }
            return false;
        }
        j = j + 1;
    }
    proof {
        lemma_sorted_from_adjacent(keys@);
    }
    true
}

/// A chain of neighbouring comparisons reaches any later slot.
proof fn lemma_lt_chain<K: KeyOrd>(s: Seq<K>, i: int, j: int)
    requires
        forall|q: int| 0 <= q < s.len() - 1 ==> (#[trigger] s[q]).lt_spec(s[q + 1]),
        0 <= i < j < s.len(),
    ensures
        s[i].lt_spec(s[j]),
    decreases j - i,
{
    if j > i + 1 {
        lemma_lt_chain(s, i, j - 1);
        K::lemma_order(s[i], s[j - 1], s[j]);
    }
}

/// Keys each strictly below their successor are strictly ascending.
pub proof fn lemma_sorted_from_adjacent<K: KeyOrd>(s: Seq<K>)
    requires
        forall|q: int| 0 <= q < s.len() - 1 ==> (#[trigger] s[q]).lt_spec(s[q + 1]),
    ensures
        sorted_strict(s),
{
    assert forall|i: int, j: int| 0 <= i < j < s.len() implies #[trigger] s[i].lt_spec(
        #[trigger] s[j],
    ) by {
        lemma_lt_chain(s, i, j);
    }
}

/// Persistence of a single page: a page read back from the bytes a
/// well-formed page was written as holds, slot for slot, keys and values
/// the store treats as the same, the same pointers and the same meta
/// fields.
pub proof fn lemma_repr_read_back<K, V>(q: Page<K, V>, p: Page<K, V>, b: Seq<u8>) where
    K: KeyOrd + Encodable + Decodable,
    V: Encodable + Decodable,

    requires
        q.inv(),
        p.inv(),
        q.spec_repr(b),
        p.spec_repr_canon(b),
    ensures
        p.page_type == q.page_type,
        p.spec_keys().len() == q.spec_keys().len(),
        p.spec_values().len() == q.spec_values().len(),
        forall|j: int|
            0 <= j < q.spec_keys().len() ==> (#[trigger] p.spec_keys()[j]).eq_spec(
                q.spec_keys()[j],
            ),
        forall|j: int|
            0 <= j < q.spec_values().len() ==> (#[trigger] p.spec_values()[j]).eq_spec(
                q.spec_values()[j],
            ),
        p.spec_ptrs() == q.spec_ptrs(),
        q.page_type == PageType::META ==> p.spec_meta_root() == q.spec_meta_root()
            && p.spec_meta_total() == q.spec_meta_total(),
{
    assert(p.page_type == q.page_type) by {
        assert(1u8 & 0x01 == 1 && 2u8 & 0x01 == 0 && 2u8 & 0x02 == 2 && 0u8 & 0x01 == 0 && 0u8
            & 0x02 == 0) by (bit_vector);
    }
    match q.page_type {
        PageType::META => {
            u32::lemma_encode_eq(p.spec_meta_root(), q.spec_meta_root());
            u32::lemma_encode_eq(p.spec_meta_total(), q.spec_meta_total());
        },
        PageType::LEAF => {
            u32::lemma_encode_eq(
                p.spec_keys().len() as u32,
                q.spec_keys().len() as u32,
            );
            assert(p.spec_keys().len() == q.spec_keys().len());
            assert forall|j: int|
                0 <= j < q.spec_keys().len() implies (#[trigger] p.spec_keys()[j]).eq_spec(
                q.spec_keys()[j],
            ) by {
                K::lemma_canon_encode(q.spec_keys()[j]);
                K::lemma_encode_eq(p.spec_keys()[j], q.spec_keys()[j]);
            }
            assert forall|j: int|
                0 <= j < q.spec_values().len() implies (#[trigger] p.spec_values()[j]).eq_spec(
                q.spec_values()[j],
            ) by {
                V::lemma_canon_encode(q.spec_values()[j]);
                V::lemma_encode_eq(p.spec_values()[j], q.spec_values()[j]);
            }
        },
        PageType::INTERNAL => {
            u32::lemma_encode_eq(
                p.spec_keys().len() as u32,
                q.spec_keys().len() as u32,
            );
            assert(p.spec_keys().len() == q.spec_keys().len());
            assert forall|j: int|
                0 <= j < q.spec_keys().len() implies (#[trigger] p.spec_keys()[j]).eq_spec(
                q.spec_keys()[j],
            ) by {
                K::lemma_canon_encode(q.spec_keys()[j]);
                K::lemma_encode_eq(p.spec_keys()[j], q.spec_keys()[j]);
            }
            assert forall|j: int| 0 <= j < q.spec_ptrs().len() implies #[trigger] p.spec_ptrs()[j]
                == q.spec_ptrs()[j] by {
                u32::lemma_encode_eq(p.spec_ptrs()[j], q.spec_ptrs()[j]);
            }
            assert(p.spec_ptrs() =~= q.spec_ptrs());
        },
    }
}

/// A page matching bytes as `spec_repr` says stores as many items as
/// the count field of those bytes announces.
proof fn lemma_repr_count<K, V>(q: Page<K, V>, b: Seq<u8>, count32: u32) where
    K: KeyOrd + Encodable + Decodable,
    V: Encodable + Decodable,

    requires
        q.inv(),
        q.spec_repr(b),
        q.page_type != PageType::META,
        count32.spec_encode() == b.subrange(4, 8),
    ensures
        q.spec_keys().len() == count32 as int,
{
    u32::lemma_encode_eq(count32, q.spec_keys().len() as u32);
}

/// A kind tag written for a page kind announces that kind back.
pub proof fn lemma_tag_round(pt: PageType)
    ensures
        spec_type_of_tag(spec_tag(pt)) == pt,
{
    assert(1u8 & 0x01 == 1 && 2u8 & 0x01 == 0 && 2u8 & 0x02 == 2 && 0u8 & 0x01 == 0 && 0u8 & 0x02
        == 0) by (bit_vector);
}

/// Keys pointwise treated as the same as a strictly ascending sequence
/// are strictly ascending themselves.
pub proof fn lemma_sorted_pointwise_eq<K: KeyOrd>(a: Seq<K>, b: Seq<K>)
    requires
        sorted_strict(a),
        b.len() == a.len(),
        forall|j: int| 0 <= j < a.len() ==> (#[trigger] b[j]).eq_spec(a[j]),
    ensures
        sorted_strict(b),
{
    assert forall|i: int, j: int| 0 <= i < j < b.len() implies #[trigger] b[i].lt_spec(
        #[trigger] b[j],
    ) by {
        K::lemma_order(b[i], a[i], a[j]);
        K::lemma_order(b[j], a[j], b[i]);
    }
}

/// In a page's strictly ascending keys, a key the store treats as the
/// searched one occupies at most one slot.
pub proof fn lemma_sorted_key_unique<K: KeyOrd>(s: Seq<K>, k: K, i: int, j: int)
    requires
        sorted_strict(s),
        0 <= i < s.len(),
        0 <= j < s.len(),
        s[i].eq_spec(k),
        s[j].eq_spec(k),
    ensures
        i == j,
{
    if i < j {
        K::lemma_eq_spec(s[i], k, s[j]);
        K::lemma_eq_spec(s[j], k, k);
        K::lemma_order(s[i], s[j], s[j]);
    } else if j < i {
        K::lemma_eq_spec(s[j], k, s[i]);
        K::lemma_eq_spec(s[i], k, k);
        K::lemma_order(s[j], s[i], s[i]);
    }
}

/// Overwrite idempotence: a leaf that already holds the pair — every
/// slot whose key the store treats as `k` carries a value treated as `v`
/// — is left, slot for slot, with the same contents by inserting the
/// pair again; the second insertion only overwrites in place.
pub proof fn lemma_insert_idempotent<K, V>(p1: Page<K, V>, p2: Page<K, V>, k: K, v: V) where
    K: KeyOrd + Encodable + Decodable,
    V: Encodable + Decodable,

    requires
        p1.inv(),
        p1.page_type == PageType::LEAF,
        forall|i: int|
            0 <= i < p1.spec_keys().len() && (#[trigger] p1.spec_keys()[i]).eq_spec(k)
                ==> p1.spec_values()[i].eq_spec(v),
        exists|i: int|
            {
                &&& 0 <= i < p1.spec_keys().len()
                &&& (#[trigger] p1.spec_keys()[i]).eq_spec(k)
                &&& p2.spec_keys() == p1.spec_keys().update(i, p2.spec_keys()[i])
                &&& p2.spec_keys()[i].eq_spec(k)
                &&& p2.spec_values() == p1.spec_values().update(i, p2.spec_values()[i])
                &&& p2.spec_values()[i].eq_spec(v)
            },
    ensures
        p2.spec_keys().len() == p1.spec_keys().len(),
        p2.spec_values().len() == p1.spec_values().len(),
        forall|j: int|
            0 <= j < p1.spec_keys().len() ==> (#[trigger] p2.spec_keys()[j]).eq_spec(
                p1.spec_keys()[j],
            ),
        forall|j: int|
            0 <= j < p1.spec_values().len() ==> (#[trigger] p2.spec_values()[j]).eq_spec(
                p1.spec_values()[j],
            ),
{
    let i = choose|i: int|
        {
            &&& 0 <= i < p1.spec_keys().len()
            &&& (#[trigger] p1.spec_keys()[i]).eq_spec(k)
            &&& p2.spec_keys() == p1.spec_keys().update(i, p2.spec_keys()[i])
            &&& p2.spec_keys()[i].eq_spec(k)
            &&& p2.spec_values() == p1.spec_values().update(i, p2.spec_values()[i])
            &&& p2.spec_values()[i].eq_spec(v)
        };
    assert forall|j: int|
        0 <= j < p1.spec_keys().len() implies (#[trigger] p2.spec_keys()[j]).eq_spec(
        p1.spec_keys()[j],
    ) by {
        if j == i {
            K::lemma_eq_spec(p1.spec_keys()[i], k, k);
            K::lemma_eq_spec(p2.spec_keys()[i], k, p1.spec_keys()[i]);
        } else {
            assert(p2.spec_keys()[j] == p1.spec_keys()[j]);
            K::lemma_eq_spec(p1.spec_keys()[j], p1.spec_keys()[j], p1.spec_keys()[j]);
        }
    }
    assert forall|j: int|
        0 <= j < p1.spec_values().len() implies (#[trigger] p2.spec_values()[j]).eq_spec(
        p1.spec_values()[j],
    ) by {
        if j == i {
            V::lemma_eq_spec(p1.spec_values()[i], v, v);
            V::lemma_eq_spec(p2.spec_values()[i], v, p1.spec_values()[i]);
        } else {
            assert(p2.spec_values()[j] == p1.spec_values()[j]);
            V::lemma_eq_spec(p1.spec_values()[j], p1.spec_values()[j], p1.spec_values()[j]);
        }
    }
}

/// Every element of a sequence is among its elements.
pub proof fn lemma_contains_self<T>(s: Seq<T>)
    ensures
        forall|j: int| 0 <= j < s.len() ==> s.contains(#[trigger] s[j]),
{
    assert forall|j: int| 0 <= j < s.len() implies s.contains(#[trigger] s[j]) by {
        assert(0 <= j < s.len() && s[j] == s[j]);
    }
}

/// After inserting `x`, every element is an old element or `x`.
pub proof fn lemma_insert_elements<T>(s: Seq<T>, q: int, x: T)
    requires
        0 <= q <= s.len(),
    ensures
        forall|j: int|
            0 <= j < s.insert(q, x).len() ==> s.contains(#[trigger] s.insert(q, x)[j]) || s.insert(
                q,
                x,
            )[j] == x,
{
    s.insert_ensures(q, x);
    lemma_contains_self(s);
    assert forall|j: int|
        0 <= j < s.insert(q, x).len() implies s.contains(#[trigger] s.insert(q, x)[j]) || s.insert(
        q,
        x,
    )[j] == x by {
        if j < q {
            assert(s.insert(q, x)[j] == s[j]);
        } else if j > q {
            assert(s.insert(q, x)[j] == s[j - 1]);
        }
    }
}

/// After overwriting slot `q` with `x`, every element is an old element
/// or `x`.
pub proof fn lemma_update_elements<T>(s: Seq<T>, q: int, x: T)
    requires
        0 <= q < s.len(),
    ensures
        forall|j: int|
            0 <= j < s.update(q, x).len() ==> s.contains(#[trigger] s.update(q, x)[j]) || s.update(
                q,
                x,
            )[j] == x,
{
    lemma_contains_self(s);
    assert forall|j: int|
        0 <= j < s.update(q, x).len() implies s.contains(#[trigger] s.update(q, x)[j]) || s.update(
        q,
        x,
    )[j] == x by {
        if j != q {
            assert(s.update(q, x)[j] == s[j]);
        }
    }
}

/// In a key sequence whose slots before `p` are all below `k` and whose
/// slots from `p` on are all above `k`, the key occurs nowhere and `p` is
/// the slot it would occupy.
pub proof fn lemma_bounds_locate<K: KeyOrd>(s: Seq<K>, k: K, p: int)
    requires
        0 <= p <= s.len(),
        forall|j: int| 0 <= j < p ==> (#[trigger] s[j]).lt_spec(k),
        forall|j: int| p <= j < s.len() ==> k.lt_spec(#[trigger] s[j]),
    ensures
        !has_key(s, k),
        insert_pos(s, k) == p,
    decreases s.len(),
{
    assert forall|i: int| 0 <= i < s.len() implies !(#[trigger] s[i]).eq_spec(k) by {
        K::lemma_order(s[i], k, k);
    }
    if s.len() > 0 {
        if p == 0 {
            K::lemma_order(s[0], k, k);
        } else {
            let t = s.drop_first();
            assert forall|j: int| 0 <= j < p - 1 implies (#[trigger] t[j]).lt_spec(k) by {
                assert(t[j] == s[j + 1]);
            }
            assert forall|j: int| p - 1 <= j < t.len() implies k.lt_spec(#[trigger] t[j]) by {
                assert(t[j] == s[j + 1]);
            }
            lemma_bounds_locate(t, k, p - 1);
        }
    }
}

/// Inserting a key between its bounds keeps the keys strictly ascending.
pub proof fn lemma_sorted_insert<K: KeyOrd>(s: Seq<K>, x: K, p: int)
    requires
        sorted_strict(s),
        0 <= p <= s.len(),
        forall|j: int| 0 <= j < p ==> (#[trigger] s[j]).lt_spec(x),
        forall|j: int| p <= j < s.len() ==> x.lt_spec(#[trigger] s[j]),
    ensures
        sorted_strict(s.insert(p, x)),
{
    let t = s.insert(p, x);
    s.insert_ensures(p, x);
    assert forall|i: int, j: int| 0 <= i < j < t.len() implies #[trigger] t[i].lt_spec(
        #[trigger] t[j],
    ) by {
        if i < p {
            assert(t[i] == s[i]);
        } else if i == p {
            assert(t[i] == x);
        } else {
            assert(t[i] == s[i - 1]);
        }
        if j < p {
            assert(t[j] == s[j]);
        } else if j == p {
            assert(t[j] == x);
        } else {
            assert(t[j] == s[j - 1]);
        }
    }
}

/// Replacing a key by one the store treats as the same keeps the keys
/// strictly ascending.
pub proof fn lemma_sorted_update_eq<K: KeyOrd>(s: Seq<K>, i: int, x: K)
    requires
        sorted_strict(s),
        0 <= i < s.len(),
        x.eq_spec(s[i]),
    ensures
        sorted_strict(s.update(i, x)),
{
    let t = s.update(i, x);
    assert forall|a: int, b: int| 0 <= a < b < t.len() implies #[trigger] t[a].lt_spec(
        #[trigger] t[b],
    ) by {
        if a == i {
            K::lemma_order(x, s[i], s[b]);
        } else if b == i {
            K::lemma_order(x, s[i], s[a]);
        }
    }
}

} // verus!
