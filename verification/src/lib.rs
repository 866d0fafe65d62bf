//! A single-file, disk-backed B+-tree key-value index.
//!
//! Fixed-size, strongly-typed keys and values are stored in fixed-size pages.
//! The `byte` module provides the binary codec for the stored types, the
//! `page` module the typed page with in-page search and ordered insertion,
//! and this root module the tree itself: point lookup, point insertion with
//! a split cascade, and serialization of the whole page store. The tree
//! works on an in-memory image of the file; a host reads the file into the
//! image, runs lookups and insertions, and writes the dirtied pages back.
use vstd::prelude::*;

pub mod byte;
pub mod page;

use crate::byte::{BinSizer, Decodable, Encodable, KeyOrd};
use crate::page::{PAGE_SIZE, Page, PageError, PageType, Pos, has_key, spec_layout_ok};

verus! {

/// Errors the tree surfaces to its callers.
#[derive(Clone, Copy, Debug, PartialEq, Eq, Structural)]
pub enum TreeError {
    /// The page store does not form the tree the meta page promises, or
    /// the page identifiers are exhausted; the handle must not be used
    /// further.
    InvariantViolation,
    /// Bytes that do not form a page store image.
    Malformed,
}

/// A disk-backed B+-tree of fixed-size keys and values, working on the
/// in-memory image of its file.
pub struct BTree<K, V> {
    /// The page store: one page per index, page 0 the meta page.
    pub pages: Vec<Page<K, V>>,
    /// Indices of pages changed since the last `take_dirty`, in the order
    /// their bytes must reach the file: children before ancestors, the
    /// meta page last.
    pub dirty: Vec<u32>,
}

impl<K, V> BTree<K, V> where K: KeyOrd + Encodable + Decodable, V: Encodable + Decodable {
    /// The index of the current root page, from the meta page.
    pub open spec fn spec_root(self) -> int {
        self.pages@[0].spec_meta_root() as int
    }

    /// Well-formedness of the page store: page 0 is the meta page and
    /// counts the store; the root is a live non-meta page; every other
    /// page is well-formed, knows its index, and is no meta page; every
    /// internal page holds at least one key and only pointers to live
    /// non-meta pages.
    pub open spec fn wf(self) -> bool {
        let pages = self.pages@;
        &&& 2 <= pages.len() <= 0xffff_ffffu32
        &&& pages[0].page_type == PageType::META
        &&& pages[0].inv()
        &&& pages[0].spec_meta_total() == pages.len()
        &&& 1 <= pages[0].spec_meta_root() < pages.len()
        &&& forall|i: int|
            1 <= i < pages.len() ==> (#[trigger] pages[i]).inv() && pages[i].page_type
                != PageType::META && pages[i].index == i
        &&& forall|i: int|
            1 <= i < pages.len() && (#[trigger] pages[i]).page_type == PageType::INTERNAL ==> 1
                <= pages[i].spec_keys().len()
        &&& forall|i: int, c: int|
            1 <= i < pages.len() && (#[trigger] pages[i]).page_type == PageType::INTERNAL && 0 <= c
                < pages[i].spec_ptrs().len() ==> 1 <= #[trigger] pages[i].spec_ptrs()[c]
                < pages.len()
    }

    /// Some leaf page holds the pair, with a key and a value the store
    /// treats as the given ones.
    pub open spec fn spec_maps(self, k: K, v: V) -> bool {
        exists|i: int, j: int|
            {
                &&& 1 <= i < self.pages@.len()
                &&& self.pages@[i].page_type == PageType::LEAF
                &&& 0 <= j < self.pages@[i].spec_keys().len()
                &&& (#[trigger] self.pages@[i].spec_keys()[j]).eq_spec(k)
                &&& self.pages@[i].spec_values()[j].eq_spec(v)
            }
    }

    /// The byte image a store writes: one 4096-byte form per page, page
    /// `i` at its slot.
    pub open spec fn spec_image_of(self, b: Seq<u8>) -> bool {
        &&& b.len() == self.pages@.len() * (PAGE_SIZE as int)
        &&& forall|i: int|
            0 <= i < self.pages@.len() ==> (#[trigger] self.pages@[i]).spec_repr(
                b.subrange(i * (PAGE_SIZE as int), (i + 1) * (PAGE_SIZE as int)),
            )
    }

    /// A fresh tree: a meta page at index 0 recording two pages and root
    /// index 1, and an empty leaf at index 1; both pages are due to be
    /// written out. Fails only when the key and value sizes do not fit
    /// the page layout.
    pub fn new_empty() -> (r: Result<Self, PageError>)
        ensures
            match r {
                Ok(t) => {
                    &&& t.wf()
                    &&& t.pages@.len() == 2
                    &&& t.spec_root() == 1
                    &&& t.pages@[1].page_type == PageType::LEAF
                    &&& t.pages@[1].spec_keys().len() == 0
                    &&& t.dirty@ == seq![1u32, 0u32]
                },
                Err(e) => e == PageError::InvariantViolation && !spec_layout_ok::<K, V>(
                    PageType::LEAF,
                ),
            },
    {
        let mut meta = match Page::<K, V>::new(0, PageType::META) {
            Ok(p) => p,
            Err(e) => {
                proof {
                    assert(false);
                }
                return Err(e);
            },
        };
        meta.set_total_page(2);
        meta.set_root_index(1);
        let root = match Page::<K, V>::new(1, PageType::LEAF) {
            Ok(p) => p,
            Err(e) => {
                return Err(e);
            },
        };
        let mut pages: Vec<Page<K, V>> = Vec::new();
        pages.push(meta);
        pages.push(root);
        let mut dirty: Vec<u32> = Vec::new();
        dirty.push(1);
        dirty.push(0);
        proof {
            assert(dirty@ =~= seq![1u32, 0u32]);
        }
        Ok(BTree { pages, dirty })
    }

    /// The page indices dirtied since the last call, in write order; the
    /// tree's own list is left empty.
    pub fn take_dirty(&mut self) -> (r: Vec<u32>)
        ensures
            final(self).pages@ == old(self).pages@,
            final(self).dirty@.len() == 0,
            r@ == old(self).dirty@,
    {
        let mut out: Vec<u32> = Vec::new();
        core::mem::swap(&mut out, &mut self.dirty);
        out
    }

    /// A freshly initialized page of the given kind at the next free
    /// index; the store itself grows only at `push_page`. Fails when the
    /// page identifiers are exhausted or the layout rejects the kind.
    fn new_page(&self, pt: PageType) -> (r: Result<Page<K, V>, TreeError>)
        requires
            self.wf(),
            pt != PageType::META,
        ensures
            match r {
                Ok(p) => {
                    &&& p.inv()
                    &&& p.index as int == self.pages@.len() as int
                    &&& p.page_type == pt
                    &&& p.spec_keys().len() == 0
                    &&& p.spec_values().len() == 0
                    &&& p.spec_ptrs() == if pt == PageType::INTERNAL {
                        seq![0u32]
                    } else {
                        Seq::<u32>::empty()
                    }
                    &&& self.pages@.len() < 0xffff_ffffu32
                },
                Err(e) => e == TreeError::InvariantViolation,
            },
            self.pages@.len() < 0xffff_ffffu32 && spec_layout_ok::<K, V>(pt) ==> r is Ok,
    {
        if self.pages.len() >= 0xffff_ffffusize {
            return Err(TreeError::InvariantViolation);
        }
        let idx = self.pages.len() as u32;
        match Page::new(idx, pt) {
            Ok(p) => Ok(p),
            Err(_) => Err(TreeError::InvariantViolation),
        }
    }

    /// Appends a freshly filled page to the store, records the grown page
    /// count in the meta page and marks the new page dirty. The meta page
    /// itself is marked dirty once by `set`, after every other mutation,
    /// so its bytes reach the file only when the pages it points at do.
    fn push_page(&mut self, p: Page<K, V>)
        requires
            old(self).wf(),
            old(self).pages@.len() < 0xffff_ffffu32,
            p.inv(),
            p.index as int == old(self).pages@.len() as int,
            p.page_type != PageType::META,
            p.page_type == PageType::INTERNAL ==> 1 <= p.spec_keys().len() && forall|c: int|
                0 <= c < p.spec_ptrs().len() ==> 1 <= #[trigger] p.spec_ptrs()[c] < old(
                    self,
                ).pages@.len(),
        ensures
            final(self).wf(),
            final(self).pages@.len() == old(self).pages@.len() + 1,
            forall|i: int|
                1 <= i < old(self).pages@.len() ==> final(self).pages@[i] == old(self).pages@[i],
            final(self).pages@[old(self).pages@.len() as int] == p,
            final(self).pages@[0].page_type == PageType::META,
            final(self).spec_root() == old(self).spec_root(),
            final(self).dirty@ == old(self).dirty@.push(p.index),
    {
        let idx = p.index;
        self.pages.push(p);
        let total = self.pages.len() as u32;
        let m = &mut self.pages[0];
        m.set_total_page(total);
        self.dirty.push(idx);
        proof {
            let pages = self.pages@;
            let oldpages = old(self).pages@;
            assert(pages.len() == oldpages.len() + 1);
            assert forall|i: int| 1 <= i < pages.len() implies (#[trigger] pages[i]).inv()
                && pages[i].page_type != PageType::META && pages[i].index == i by {
                if i < oldpages.len() {
                    assert(pages[i] == oldpages[i]);
                }
            }
            assert forall|i: int|
                1 <= i < pages.len() && (#[trigger] pages[i]).page_type
                    == PageType::INTERNAL implies 1 <= pages[i].spec_keys().len() by {
                if i < oldpages.len() {
                    assert(pages[i] == oldpages[i]);
                }
            }
            assert forall|i: int, c: int|
                1 <= i < pages.len() && (#[trigger] pages[i]).page_type == PageType::INTERNAL && 0
                    <= c < pages[i].spec_ptrs().len() implies 1 <= #[trigger] pages[
                i].spec_ptrs()[c] < pages.len() by {
                if i < oldpages.len() {
                    assert(pages[i] == oldpages[i]);
                }
            }
        }
    }

    /// Splits the full leaf at `leaf_idx` around the pair, appending the
    /// new right leaf to the store; hands back the separator key and the
    /// new page's index, for insertion into the parent.
    fn split_leaf_page(&mut self, leaf_idx: u32, key: &K, value: &V) -> (r: Result<
        (K, u32),
        TreeError,
    >)
        requires
            old(self).wf(),
            1 <= leaf_idx < old(self).pages@.len(),
            old(self).pages@[leaf_idx as int].page_type == PageType::LEAF,
            old(self).pages@[leaf_idx as int].spec_keys().len() == old(self).pages@[
                leaf_idx as int
            ].spec_max_items(),
            !has_key(old(self).pages@[leaf_idx as int].spec_keys(), *key),
            key.wf(),
            value.wf(),
        ensures
            final(self).wf(),
            match r {
                Ok((sep, ptr)) => {
                    &&& sep.wf()
                    &&& 1 <= ptr < final(self).pages@.len()
                    &&& final(self).pages@.len() == old(self).pages@.len() + 1
                    &&& final(self).pages@[ptr as int].page_type == PageType::LEAF
                    &&& forall|i: int|
                        1 <= i < old(self).pages@.len() && i != leaf_idx ==> final(self).pages@[i]
                            == old(self).pages@[i]
                    &&& final(self).pages@[leaf_idx as int].page_type == PageType::LEAF
                    &&& final(self).spec_root() == old(self).spec_root()
                    &&& final(self).spec_maps(*key, *value)
                    &&& final(self).dirty@ == old(self).dirty@.push(ptr).push(leaf_idx)
                    &&& forall|k2: K, v2: V|
                        old(self).spec_maps(k2, v2) ==> final(self).spec_maps(k2, v2)
                    &&& forall|k2: K, v2: V|
                        final(self).spec_maps(k2, v2) ==> old(self).spec_maps(k2, v2)
                            || k2.eq_spec(*key)
                    &&& ({
                        let left = final(self).pages@[leaf_idx as int];
                        let right = final(self).pages@[ptr as int];
                        let p = crate::page::insert_pos(
                            old(self).pages@[leaf_idx as int].spec_keys(),
                            *key,
                        );
                        let n = old(self).pages@[leaf_idx as int].spec_keys().len() as int + 1;
                        let cut = (n + 2) / 2;
                        let kk = if p < cut {
                            left.spec_keys()[p]
                        } else {
                            right.spec_keys()[p - cut]
                        };
                        let vv = if p < cut {
                            left.spec_values()[p]
                        } else {
                            right.spec_values()[p - cut]
                        };
                        let comb = old(self).pages@[leaf_idx as int].spec_keys().insert(p, kk);
                        let combv = old(self).pages@[leaf_idx as int].spec_values().insert(
                            p,
                            vv,
                        );
                        &&& kk.eq_spec(*key)
                        &&& vv.eq_spec(*value)
                        &&& left.spec_keys() == comb.take(cut)
                        &&& left.spec_values() == combv.take(cut)
                        &&& right.spec_keys() == comb.skip(cut)
                        &&& right.spec_values() == combv.skip(cut)
                        &&& sep.eq_spec(right.spec_keys()[0])
                        &&& forall|j: int|
                            0 <= j < left.spec_keys().len() ==> (#[trigger] left.spec_keys()[
                            j]).lt_spec(sep)
                        &&& forall|j: int|
                            1 <= j < right.spec_keys().len() ==> sep.lt_spec(
                                #[trigger] right.spec_keys()[j],
                            )
                    })
                },
                Err(e) => e == TreeError::InvariantViolation && *final(self) == *old(self),
            },
            old(self).pages@.len() < 0xffff_ffffu32 ==> r is Ok,
    {
        let mut np = match self.new_page(PageType::LEAF) {
            Ok(p) => p,
            Err(e) => {
                return Err(e);
            },
        };
        let ghost oldlen = self.pages@.len() as int;
        let pg = &mut self.pages[leaf_idx as usize];
        let ghost old_page = *pg;
        let sep = pg.split_leaf_into(&mut np, key, value);
        let nidx = np.index;
        proof {
            let pages = self.pages@;
            let oldpages = old(self).pages@;
            assert forall|i: int| 1 <= i < pages.len() implies (#[trigger] pages[i]).inv()
                && pages[i].page_type != PageType::META && pages[i].index == i by {
                if i != leaf_idx {
                    assert(pages[i] == oldpages[i]);
                }
            }
            assert forall|i: int|
                1 <= i < pages.len() && (#[trigger] pages[i]).page_type
                    == PageType::INTERNAL implies 1 <= pages[i].spec_keys().len() by {
                assert(pages[i] == oldpages[i]);
            }
            assert forall|i: int, c: int|
                1 <= i < pages.len() && (#[trigger] pages[i]).page_type == PageType::INTERNAL && 0
                    <= c < pages[i].spec_ptrs().len() implies 1 <= #[trigger] pages[
                i].spec_ptrs()[c] < pages.len() by {
                assert(pages[i] == oldpages[i]);
            }
        }
        self.push_page(np);
        self.dirty.push(leaf_idx);
        proof {
            let p = crate::page::insert_pos(old_page.spec_keys(), *key);
            let n = old_page.spec_keys().len() as int + 1;
            let cut = (n + 2) / 2;
            let li = leaf_idx as int;
            let ni = nidx as int;
            let kk = if p < cut {
                self.pages@[li].spec_keys()[p]
            } else {
                self.pages@[ni].spec_keys()[p - cut]
            };
            let vv = if p < cut {
                self.pages@[li].spec_values()[p]
            } else {
                self.pages@[ni].spec_values()[p - cut]
            };
            let comb = old_page.spec_keys().insert(p, kk);
            let combv = old_page.spec_values().insert(p, vv);
            old_page.spec_keys().insert_ensures(p, kk);
            old_page.spec_values().insert_ensures(p, vv);
            assert(self.pages@[li].spec_keys() == comb.take(cut));
            assert(self.pages@[ni].spec_keys() == comb.skip(cut));
            if p < cut {
                assert(self.pages@[li].spec_keys()[p] == comb[p]);
                assert(self.pages@[li].spec_values()[p] == combv[p]);
            } else {
                assert(self.pages@[ni].spec_keys()[p - cut] == comb[p]);
                assert(self.pages@[ni].spec_values()[p - cut] == combv[p]);
            }
            if p < cut {
                assert({
                    &&& 1 <= li < self.pages@.len()
                    &&& self.pages@[li].page_type == PageType::LEAF
                    &&& 0 <= p < self.pages@[li].spec_keys().len()
                    &&& self.pages@[li].spec_keys()[p].eq_spec(*key)
                    &&& self.pages@[li].spec_values()[p].eq_spec(*value)
                });
            } else {
                assert({
                    &&& 1 <= ni < self.pages@.len()
                    &&& self.pages@[ni].page_type == PageType::LEAF
                    &&& 0 <= p - cut < self.pages@[ni].spec_keys().len()
                    &&& self.pages@[ni].spec_keys()[p - cut].eq_spec(*key)
                    &&& self.pages@[ni].spec_values()[p - cut].eq_spec(*value)
                });
            }
            assert forall|k2: K, v2: V|
                self.spec_maps(k2, v2) implies old(self).spec_maps(k2, v2) || k2.eq_spec(
                *key,
            ) by {
                let (wi, wj) = choose|wi: int, wj: int|
                    {
                        &&& 1 <= wi < self.pages@.len()
                        &&& self.pages@[wi].page_type == PageType::LEAF
                        &&& 0 <= wj < self.pages@[wi].spec_keys().len()
                        &&& (#[trigger] self.pages@[wi].spec_keys()[wj]).eq_spec(k2)
                        &&& self.pages@[wi].spec_values()[wj].eq_spec(v2)
                    };
                if wi != li && wi != ni {
                    assert(self.pages@[wi] == old(self).pages@[wi]);
                    assert({
                        &&& 1 <= wi < old(self).pages@.len()
                        &&& old(self).pages@[wi].page_type == PageType::LEAF
                        &&& 0 <= wj < old(self).pages@[wi].spec_keys().len()
                        &&& old(self).pages@[wi].spec_keys()[wj].eq_spec(k2)
                        &&& old(self).pages@[wi].spec_values()[wj].eq_spec(v2)
                    });
                } else {
                    let c = if wi == li {
                        wj
                    } else {
                        cut + wj
                    };
                    assert(self.pages@[wi].spec_keys()[wj] == comb[c]);
                    assert(self.pages@[wi].spec_values()[wj] == combv[c]);
                    if c == p {
                        K::lemma_eq_spec(kk, k2, k2);
                        K::lemma_eq_spec(k2, kk, *key);
                        assert(k2.eq_spec(*key));
                    } else {
                        let j0 = if c < p {
                            c
                        } else {
                            c - 1
                        };
                        assert(comb[c] == old_page.spec_keys()[j0]);
                        assert(combv[c] == old_page.spec_values()[j0]);
                        assert({
                            &&& 1 <= li < old(self).pages@.len()
                            &&& old(self).pages@[li].page_type == PageType::LEAF
                            &&& 0 <= j0 < old(self).pages@[li].spec_keys().len()
                            &&& old(self).pages@[li].spec_keys()[j0].eq_spec(k2)
                            &&& old(self).pages@[li].spec_values()[j0].eq_spec(v2)
                        });
                    }
                }
            }
            assert forall|k2: K, v2: V|
                old(self).spec_maps(k2, v2) implies self.spec_maps(k2, v2) by {
                let (wi, wj) = choose|wi: int, wj: int|
                    {
                        &&& 1 <= wi < old(self).pages@.len()
                        &&& old(self).pages@[wi].page_type == PageType::LEAF
                        &&& 0 <= wj < old(self).pages@[wi].spec_keys().len()
                        &&& (#[trigger] old(self).pages@[wi].spec_keys()[wj]).eq_spec(k2)
                        &&& old(self).pages@[wi].spec_values()[wj].eq_spec(v2)
                    };
                if wi != li {
                    assert(self.pages@[wi] == old(self).pages@[wi]);
                    assert({
                        &&& 1 <= wi < self.pages@.len()
                        &&& self.pages@[wi].page_type == PageType::LEAF
                        &&& 0 <= wj < self.pages@[wi].spec_keys().len()
                        &&& self.pages@[wi].spec_keys()[wj].eq_spec(k2)
                        &&& self.pages@[wi].spec_values()[wj].eq_spec(v2)
                    });
                } else {
                    let wjc = if wj < p {
                        wj
                    } else {
                        wj + 1
                    };
                    assert(comb[wjc] == old_page.spec_keys()[wj]);
                    assert(combv[wjc] == old_page.spec_values()[wj]);
                    if wjc < cut {
                        assert(self.pages@[li].spec_keys()[wjc] == comb[wjc]);
                        assert(self.pages@[li].spec_values()[wjc] == combv[wjc]);
                        assert({
                            &&& 1 <= li < self.pages@.len()
                            &&& self.pages@[li].page_type == PageType::LEAF
                            &&& 0 <= wjc < self.pages@[li].spec_keys().len()
                            &&& self.pages@[li].spec_keys()[wjc].eq_spec(k2)
                            &&& self.pages@[li].spec_values()[wjc].eq_spec(v2)
                        });
                    } else {
                        assert(self.pages@[ni].spec_keys()[wjc - cut] == comb[wjc]);
                        assert(self.pages@[ni].spec_values()[wjc - cut] == combv[wjc]);
                        assert({
                            &&& 1 <= ni < self.pages@.len()
                            &&& self.pages@[ni].page_type == PageType::LEAF
                            &&& 0 <= wjc - cut < self.pages@[ni].spec_keys().len()
                            &&& self.pages@[ni].spec_keys()[wjc - cut].eq_spec(k2)
                            &&& self.pages@[ni].spec_values()[wjc - cut].eq_spec(v2)
                        });
                    }
                }
            }
        }
        Ok((sep, nidx))
    }

    /// Splits the full internal page at `parent_idx` around the promoted
    /// separator and pointer, appending the new right page to the store;
    /// hands back the key promoted one level further up and the new
    /// page's index.
    fn split_internal_page(&mut self, parent_idx: u32, key: &K, ptr: u32) -> (r: Result<
        (K, u32),
        TreeError,
    >)
        requires
            old(self).wf(),
            1 <= parent_idx < old(self).pages@.len(),
            old(self).pages@[parent_idx as int].page_type == PageType::INTERNAL,
            old(self).pages@[parent_idx as int].spec_keys().len() == old(self).pages@[
                parent_idx as int
            ].spec_max_items(),
            !has_key(old(self).pages@[parent_idx as int].spec_keys(), *key),
            key.wf(),
            1 <= ptr < old(self).pages@.len(),
            old(self).pages@[ptr as int].page_type != PageType::META,
        ensures
            final(self).wf(),
            match r {
                Ok((sep, nptr)) => {
                    &&& sep.wf()
                    &&& 1 <= nptr < final(self).pages@.len()
                    &&& final(self).pages@.len() == old(self).pages@.len() + 1
                    &&& final(self).pages@[nptr as int].page_type == PageType::INTERNAL
                    &&& forall|i: int|
                        1 <= i < old(self).pages@.len() && i != parent_idx ==> final(self).pages@[i] == old(self).pages@[i]
                    &&& final(self).pages@[parent_idx as int].page_type == PageType::INTERNAL
                    &&& final(self).spec_root() == old(self).spec_root()
                    &&& final(self).dirty@ == old(self).dirty@.push(nptr).push(parent_idx)
                    &&& forall|k2: K, v2: V|
                        old(self).spec_maps(k2, v2) ==> final(self).spec_maps(k2, v2)
                    &&& forall|k2: K, v2: V|
                        final(self).spec_maps(k2, v2) ==> old(self).spec_maps(k2, v2)
                    &&& ({
                        let left = final(self).pages@[parent_idx as int];
                        let right = final(self).pages@[nptr as int];
                        let p = crate::page::insert_pos(
                            old(self).pages@[parent_idx as int].spec_keys(),
                            *key,
                        );
                        let n = old(self).pages@[parent_idx as int].spec_keys().len() as int + 1;
                        let up = (n - 1) / 2;
                        let kk = if p < up {
                            left.spec_keys()[p]
                        } else if p == up {
                            sep
                        } else {
                            right.spec_keys()[p - up - 1]
                        };
                        let comb = old(self).pages@[parent_idx as int].spec_keys().insert(p, kk);
                        let combp = old(self).pages@[parent_idx as int].spec_ptrs().insert(
                            p + 1,
                            ptr,
                        );
                        &&& kk.eq_spec(*key)
                        &&& left.spec_keys() == comb.take(up)
                        &&& left.spec_ptrs() == combp.take(up + 1)
                        &&& right.spec_keys() == comb.skip(up + 1)
                        &&& right.spec_ptrs() == combp.skip(up + 1)
                        &&& sep == comb[up]
                        &&& forall|j: int|
                            0 <= j < left.spec_keys().len() ==> (#[trigger] left.spec_keys()[
                            j]).lt_spec(sep)
                        &&& forall|j: int|
                            0 <= j < right.spec_keys().len() ==> sep.lt_spec(
                                #[trigger] right.spec_keys()[j],
                            )
                    })
                },
                Err(e) => e == TreeError::InvariantViolation && *final(self) == *old(self),
            },
            old(self).pages@.len() < 0xffff_ffffu32 ==> r is Ok,
    {
        let mut np = match self.new_page(PageType::INTERNAL) {
            Ok(p) => p,
            Err(e) => {
                return Err(e);
            },
        };
        let pg = &mut self.pages[parent_idx as usize];
        let ghost old_page = *pg;
        let sep = pg.split_internal_into(&mut np, key, ptr);
        let nidx = np.index;
        proof {
            let pages = self.pages@;
            let oldpages = old(self).pages@;
            assert forall|i: int| 1 <= i < pages.len() implies (#[trigger] pages[i]).inv()
                && pages[i].page_type != PageType::META && pages[i].index == i by {
                if i != parent_idx {
                    assert(pages[i] == oldpages[i]);
                }
            }
            assert forall|i: int|
                1 <= i < pages.len() && (#[trigger] pages[i]).page_type
                    == PageType::INTERNAL implies 1 <= pages[i].spec_keys().len() by {
                if i != parent_idx {
                    assert(pages[i] == oldpages[i]);
                }
            }
            assert forall|i: int, c: int|
                1 <= i < pages.len() && (#[trigger] pages[i]).page_type == PageType::INTERNAL && 0
                    <= c < pages[i].spec_ptrs().len() implies 1 <= #[trigger] pages[
                i].spec_ptrs()[c] < pages.len() by {
                if i != parent_idx {
                    assert(pages[i] == oldpages[i]);
                } else {
                    if old_page.spec_ptrs().contains(pages[i].spec_ptrs()[c]) {
                        let w = choose|w: int|
                            0 <= w < old_page.spec_ptrs().len() && old_page.spec_ptrs()[w]
                                == pages[i].spec_ptrs()[c];
                        assert(1 <= oldpages[i as int].spec_ptrs()[w] < oldpages.len());
                    }
                }
            }
        }
        proof {
            assert forall|c: int|
                0 <= c < np.spec_ptrs().len() implies 1 <= #[trigger] np.spec_ptrs()[c]
                    < self.pages@.len() by {
                if old_page.spec_ptrs().contains(np.spec_ptrs()[c]) {
                    let w = choose|w: int|
                        0 <= w < old_page.spec_ptrs().len() && old_page.spec_ptrs()[w]
                            == np.spec_ptrs()[c];
                    assert(1 <= old(self).pages@[parent_idx as int].spec_ptrs()[w] < old(
                        self,
                    ).pages@.len());
                }
            }
        }
        self.push_page(np);
        self.dirty.push(parent_idx);
        proof {
            lemma_maps_preserved(*old(self), *self);
            assert forall|i: int|
                1 <= i < self.pages@.len() && (#[trigger] self.pages@[i]).page_type
                    == PageType::LEAF implies i < old(self).pages@.len() && old(self).pages@[i]
                == self.pages@[i] by {
                assert(i != parent_idx);
                assert(i != nidx as int);
            }
            lemma_maps_preserved(*self, *old(self));
        }
        Ok((sep, nidx))
    }

    /// Point insertion, insert-or-overwrite: walks to the leaf
    /// remembering the path of internal pages, inserts into the leaf in
    /// key order, and when the leaf is full splits it and promotes a
    /// separator up the remembered path, splitting full ancestors in turn
    /// and allocating a new root when the old root itself splits. On
    /// success the pair sits in a leaf of the well-formed store; the
    /// error comes only of a store whose pages do not form the tree the
    /// meta page promises (or of exhausted page identifiers), and such a
    /// handle must not be used further.
    pub fn set(&mut self, key: &K, value: &V) -> (r: Result<(), TreeError>)
        requires
            old(self).wf(),
            key.wf(),
            value.wf(),
        ensures
            final(self).wf(),
            match r {
                Ok(()) => final(self).spec_maps(*key, *value),
                Err(e) => e == TreeError::InvariantViolation,
            },
            old(self).pages@[old(self).spec_root()].page_type == PageType::LEAF
                && spec_layout_ok::<K, V>(PageType::INTERNAL) && old(self).pages@.len() + 2
                <= 0xffff_ffffu32 ==> r is Ok,
            old(self).pages@.len() <= final(self).pages@.len(),
            old(self).dirty@.is_prefix_of(final(self).dirty@),
            forall|k2: K, v2: V|
                old(self).spec_maps(k2, v2) && !k2.eq_spec(*key) ==> final(self).spec_maps(
                    k2,
                    v2,
                ),
            forall|k2: K, v2: V|
                final(self).spec_maps(k2, v2) ==> old(self).spec_maps(k2, v2) || k2.eq_spec(
                    *key,
                ),
            final(self).pages@.len() == old(self).pages@.len() ==> final(self).spec_root() == old(
                self,
            ).spec_root() && final(self).pages@[0] == old(self).pages@[0],
            r is Ok && final(self).spec_root() != old(self).spec_root() ==> {
                let root = final(self).pages@[final(self).spec_root()];
                &&& root.page_type == PageType::INTERNAL
                &&& root.spec_keys().len() == 1
                &&& root.spec_ptrs().len() == 2
                &&& root.spec_ptrs()[0] as int == old(self).spec_root()
                &&& 1 <= root.spec_ptrs()[1] < final(self).pages@.len()
            },
            ({
                let oldroot = old(self).pages@[old(self).spec_root()];
                oldroot.page_type == PageType::LEAF && oldroot.spec_keys().len()
                    < oldroot.spec_max_items()
            }) ==> ({
                let ro = old(self).spec_root();
                let oldroot = old(self).pages@[ro];
                let newroot = final(self).pages@[ro];
                &&& r is Ok
                &&& final(self).pages@.len() == old(self).pages@.len()
                &&& final(self).spec_root() == ro
                &&& forall|i: int|
                    0 <= i < old(self).pages@.len() && i != ro ==> final(self).pages@[i] == old(
                        self,
                    ).pages@[i]
                &&& newroot.page_type == PageType::LEAF
                &&& if has_key(oldroot.spec_keys(), *key) {
                    exists|i: int|
                        {
                            &&& 0 <= i < oldroot.spec_keys().len()
                            &&& (#[trigger] oldroot.spec_keys()[i]).eq_spec(*key)
                            &&& newroot.spec_keys() == oldroot.spec_keys().update(
                                i,
                                newroot.spec_keys()[i],
                            )
                            &&& newroot.spec_keys()[i].eq_spec(*key)
                            &&& newroot.spec_values() == oldroot.spec_values().update(
                                i,
                                newroot.spec_values()[i],
                            )
                            &&& newroot.spec_values()[i].eq_spec(*value)
                        }
                } else {
                    {
                        let p = crate::page::insert_pos(oldroot.spec_keys(), *key);
                        &&& 0 <= p <= oldroot.spec_keys().len()
                        &&& newroot.spec_keys() == oldroot.spec_keys().insert(
                            p,
                            newroot.spec_keys()[p],
                        )
                        &&& newroot.spec_keys()[p].eq_spec(*key)
                        &&& newroot.spec_values() == oldroot.spec_values().insert(
                            p,
                            newroot.spec_values()[p],
                        )
                        &&& newroot.spec_values()[p].eq_spec(*value)
                    }
                }
            }),
    {
        proof {
            assert(old(self).dirty@.is_prefix_of(old(self).dirty@)) by {
                assert(old(self).dirty@ =~= old(self).dirty@.subrange(
                    0,
                    old(self).dirty@.len() as int,
                ));
            }
        }
        let mut path: Vec<u32> = Vec::new();
        let mut cur: u32 = self.pages[0].root_index();
        let mut steps: usize = 0;
        loop
            invariant
                self.wf(),
                *self == *old(self),
                old(self).dirty@.is_prefix_of(self.dirty@),
                1 <= cur < self.pages@.len(),
                self.pages@[cur as int].page_type != PageType::META,
                steps <= self.pages@.len(),
                self.pages@[self.spec_root()].page_type == PageType::LEAF ==> cur
                    == self.spec_root() && path@.len() == 0,
                forall|e: int|
                    0 <= e < path@.len() ==> 1 <= #[trigger] path@[e] < self.pages@.len()
                        && self.pages@[path@[e] as int].page_type == PageType::INTERNAL,
            ensures
                self.wf(),
                *self == *old(self),
                1 <= cur < self.pages@.len(),
                self.pages@[cur as int].page_type == PageType::LEAF,
                self.pages@[self.spec_root()].page_type == PageType::LEAF ==> cur
                    == self.spec_root() && path@.len() == 0,
                forall|e: int|
                    0 <= e < path@.len() ==> 1 <= #[trigger] path@[e] < self.pages@.len()
                        && self.pages@[path@[e] as int].page_type == PageType::INTERNAL,
            decreases self.pages@.len() - steps,
        {
            let p = &self.pages[cur as usize];
            match p.page_type {
                PageType::INTERNAL => {
                    proof {
                        if old(self).pages@[old(self).spec_root()].page_type == PageType::LEAF {
                            assert(cur as int == self.spec_root());
                            assert(false);
                        }
                    }
                    match p.find(key) {
                        Some((i, pos)) => {
                            let ptr_index = if let Pos::Left = pos {
                                i
                            } else {
                                i + 1
                            };
                            match p.ptr_at(ptr_index) {
                                Some(child) => {
                                    path.push(cur);
                                    cur = child;
                                },
                                None => {
                                    proof {
                                        assert(false);
                                    }
                                    return Err(TreeError::InvariantViolation);
                                },
                            }
                        },
                        None => {
                            proof {
                                assert(false);
                            }
                            return Err(TreeError::InvariantViolation);
                        },
                    }
                    if steps >= self.pages.len() {
                        return Err(TreeError::InvariantViolation);
                    }
                    steps = steps + 1;
                },
                PageType::LEAF => {
                    break ;
                },
                PageType::META => {
                    proof {
                        assert(false);
                    }
                    return Err(TreeError::InvariantViolation);
                },
            }
        }
        let leaf_idx = cur;
        let pg = &mut self.pages[leaf_idx as usize];
        let ghost old_leaf = *pg;
        let full_and_absent: bool = match pg.insert(key, value) {
            Ok(()) => false,
            Err(_) => true,
        };
        proof {
            let pages = self.pages@;
            let oldpages = old(self).pages@;
            assert forall|i: int| 1 <= i < pages.len() implies (#[trigger] pages[i]).inv()
                && pages[i].page_type != PageType::META && pages[i].index == i by {
                if i != leaf_idx {
                    assert(pages[i] == oldpages[i]);
                }
            }
            assert forall|i: int|
                1 <= i < pages.len() && (#[trigger] pages[i]).page_type
                    == PageType::INTERNAL implies 1 <= pages[i].spec_keys().len() by {
                assert(pages[i] == oldpages[i]);
            }
            assert forall|i: int, c: int|
                1 <= i < pages.len() && (#[trigger] pages[i]).page_type == PageType::INTERNAL && 0
                    <= c < pages[i].spec_ptrs().len() implies 1 <= #[trigger] pages[
                i].spec_ptrs()[c] < pages.len() by {
                assert(pages[i] == oldpages[i]);
            }
        }
        if !full_and_absent {
            proof {
                let li = leaf_idx as int;
                if has_key(old_leaf.spec_keys(), *key) {
                    let i = choose|i: int|
                        0 <= i < old_leaf.spec_keys().len() && (#[trigger] old_leaf.spec_keys()[
                        i]).eq_spec(*key) && self.pages@[li].spec_keys() == old_leaf.spec_keys()
                            .update(i, self.pages@[li].spec_keys()[i]) && self.pages@[
                        li].spec_keys()[i].eq_spec(*key) && self.pages@[li].spec_values()
                            == old_leaf.spec_values().update(i, self.pages@[li].spec_values()[i])
                            && self.pages@[li].spec_values()[i].eq_spec(*value);
                    assert({
                        &&& 1 <= li < self.pages@.len()
                        &&& self.pages@[li].page_type == PageType::LEAF
                        &&& 0 <= i < self.pages@[li].spec_keys().len()
                        &&& self.pages@[li].spec_keys()[i].eq_spec(*key)
                        &&& self.pages@[li].spec_values()[i].eq_spec(*value)
                    });
                } else {
                    let p = crate::page::insert_pos(old_leaf.spec_keys(), *key);
                    assert({
                        &&& 1 <= li < self.pages@.len()
                        &&& self.pages@[li].page_type == PageType::LEAF
                        &&& 0 <= p < self.pages@[li].spec_keys().len()
                        &&& self.pages@[li].spec_keys()[p].eq_spec(*key)
                        &&& self.pages@[li].spec_values()[p].eq_spec(*value)
                    });
                }
                assert forall|k2: K, v2: V|
                    old(self).spec_maps(k2, v2) && !k2.eq_spec(*key) implies self.spec_maps(
                    k2,
                    v2,
                ) by {
                    let (wi, wj) = choose|wi: int, wj: int|
                        {
                            &&& 1 <= wi < old(self).pages@.len()
                            &&& old(self).pages@[wi].page_type == PageType::LEAF
                            &&& 0 <= wj < old(self).pages@[wi].spec_keys().len()
                            &&& (#[trigger] old(self).pages@[wi].spec_keys()[wj]).eq_spec(k2)
                            &&& old(self).pages@[wi].spec_values()[wj].eq_spec(v2)
                        };
                    if wi != li {
                        assert(self.pages@[wi] == old(self).pages@[wi]);
                        assert({
                            &&& 1 <= wi < self.pages@.len()
                            &&& self.pages@[wi].page_type == PageType::LEAF
                            &&& 0 <= wj < self.pages@[wi].spec_keys().len()
                            &&& self.pages@[wi].spec_keys()[wj].eq_spec(k2)
                            &&& self.pages@[wi].spec_values()[wj].eq_spec(v2)
                        });
                    } else {
                        if has_key(old_leaf.spec_keys(), *key) {
                            let i = choose|i: int|
                                0 <= i < old_leaf.spec_keys().len() && (
                                #[trigger] old_leaf.spec_keys()[i]).eq_spec(*key)
                                    && self.pages@[li].spec_keys() == old_leaf.spec_keys()
                                    .update(i, self.pages@[li].spec_keys()[i]) && self.pages@[
                                li].spec_keys()[i].eq_spec(*key) && self.pages@[
                                li].spec_values() == old_leaf.spec_values().update(
                                    i,
                                    self.pages@[li].spec_values()[i],
                                ) && self.pages@[li].spec_values()[i].eq_spec(*value);
                            if wj == i {
                                K::lemma_eq_spec(old_leaf.spec_keys()[i], k2, k2);
                                K::lemma_eq_spec(k2, old_leaf.spec_keys()[i], *key);
                                assert(false);
                            }
                            assert(self.pages@[li].spec_keys()[wj] == old_leaf.spec_keys()[wj]);
                            assert(self.pages@[li].spec_values()[wj] == old_leaf.spec_values()[
                            wj]);
                            assert({
                                &&& 1 <= li < self.pages@.len()
                                &&& self.pages@[li].page_type == PageType::LEAF
                                &&& 0 <= wj < self.pages@[li].spec_keys().len()
                                &&& self.pages@[li].spec_keys()[wj].eq_spec(k2)
                                &&& self.pages@[li].spec_values()[wj].eq_spec(v2)
                            });
                        } else {
                            let p = crate::page::insert_pos(old_leaf.spec_keys(), *key);
                            let wjc = if wj < p {
                                wj
                            } else {
                                wj + 1
                            };
                            old_leaf.spec_keys().insert_ensures(
                                p,
                                self.pages@[li].spec_keys()[p],
                            );
                            old_leaf.spec_values().insert_ensures(
                                p,
                                self.pages@[li].spec_values()[p],
                            );
                            assert(self.pages@[li].spec_keys()[wjc] == old_leaf.spec_keys()[wj]);
                            assert(self.pages@[li].spec_values()[wjc] == old_leaf.spec_values()[
                            wj]);
                            assert({
                                &&& 1 <= li < self.pages@.len()
                                &&& self.pages@[li].page_type == PageType::LEAF
                                &&& 0 <= wjc < self.pages@[li].spec_keys().len()
                                &&& self.pages@[li].spec_keys()[wjc].eq_spec(k2)
                                &&& self.pages@[li].spec_values()[wjc].eq_spec(v2)
                            });
                        }
                    }
                }
                assert forall|k2: K, v2: V|
                    self.spec_maps(k2, v2) implies old(self).spec_maps(k2, v2) || k2.eq_spec(
                    *key,
                ) by {
                    let (wi, wj) = choose|wi: int, wj: int|
                        {
                            &&& 1 <= wi < self.pages@.len()
                            &&& self.pages@[wi].page_type == PageType::LEAF
                            &&& 0 <= wj < self.pages@[wi].spec_keys().len()
                            &&& (#[trigger] self.pages@[wi].spec_keys()[wj]).eq_spec(k2)
                            &&& self.pages@[wi].spec_values()[wj].eq_spec(v2)
                        };
                    if wi != li {
                        assert(self.pages@[wi] == old(self).pages@[wi]);
                        assert({
                            &&& 1 <= wi < old(self).pages@.len()
                            &&& old(self).pages@[wi].page_type == PageType::LEAF
                            &&& 0 <= wj < old(self).pages@[wi].spec_keys().len()
                            &&& old(self).pages@[wi].spec_keys()[wj].eq_spec(k2)
                            &&& old(self).pages@[wi].spec_values()[wj].eq_spec(v2)
                        });
                    } else {
                        if has_key(old_leaf.spec_keys(), *key) {
                            let i = choose|i: int|
                                0 <= i < old_leaf.spec_keys().len() && (
                                #[trigger] old_leaf.spec_keys()[i]).eq_spec(*key)
                                    && self.pages@[li].spec_keys() == old_leaf.spec_keys()
                                    .update(i, self.pages@[li].spec_keys()[i]) && self.pages@[
                                li].spec_keys()[i].eq_spec(*key) && self.pages@[
                                li].spec_values() == old_leaf.spec_values().update(
                                    i,
                                    self.pages@[li].spec_values()[i],
                                ) && self.pages@[li].spec_values()[i].eq_spec(*value);
                            if wj == i {
                                K::lemma_eq_spec(self.pages@[li].spec_keys()[i], k2, k2);
                                K::lemma_eq_spec(k2, self.pages@[li].spec_keys()[i], *key);
                                assert(k2.eq_spec(*key));
                            } else {
                                assert(self.pages@[li].spec_keys()[wj] == old_leaf.spec_keys()[
                                wj]);
                                assert(self.pages@[li].spec_values()[wj]
                                    == old_leaf.spec_values()[wj]);
                                assert({
                                    &&& 1 <= li < old(self).pages@.len()
                                    &&& old(self).pages@[li].page_type == PageType::LEAF
                                    &&& 0 <= wj < old(self).pages@[li].spec_keys().len()
                                    &&& old(self).pages@[li].spec_keys()[wj].eq_spec(k2)
                                    &&& old(self).pages@[li].spec_values()[wj].eq_spec(v2)
                                });
                            }
                        } else {
                            let p = crate::page::insert_pos(old_leaf.spec_keys(), *key);
                            old_leaf.spec_keys().insert_ensures(
                                p,
                                self.pages@[li].spec_keys()[p],
                            );
                            old_leaf.spec_values().insert_ensures(
                                p,
                                self.pages@[li].spec_values()[p],
                            );
                            if wj == p {
                                K::lemma_eq_spec(self.pages@[li].spec_keys()[p], k2, k2);
                                K::lemma_eq_spec(k2, self.pages@[li].spec_keys()[p], *key);
                                assert(k2.eq_spec(*key));
                            } else {
                                let j0 = if wj < p {
                                    wj
                                } else {
                                    wj - 1
                                };
                                assert(self.pages@[li].spec_keys()[wj] == old_leaf.spec_keys()[
                                j0]);
                                assert(self.pages@[li].spec_values()[wj]
                                    == old_leaf.spec_values()[j0]);
                                assert({
                                    &&& 1 <= li < old(self).pages@.len()
                                    &&& old(self).pages@[li].page_type == PageType::LEAF
                                    &&& 0 <= j0 < old(self).pages@[li].spec_keys().len()
                                    &&& old(self).pages@[li].spec_keys()[j0].eq_spec(k2)
                                    &&& old(self).pages@[li].spec_values()[j0].eq_spec(v2)
                                });
                            }
                        }
                    }
                }
            }
            proof {
                if old(self).pages@[old(self).spec_root()].page_type == PageType::LEAF {
                    assert(leaf_idx as int == old(self).spec_root());
                }
                lemma_prefix_push(old(self).dirty@, old(self).dirty@, leaf_idx);
            }
            self.dirty.push(leaf_idx);
            return Ok(());
        }
        let ghost pre_split = *self;
        proof {
            lemma_maps_preserved(*old(self), pre_split);
            lemma_maps_preserved(pre_split, *old(self));
        }
        proof {
            if old(self).pages@[old(self).spec_root()].page_type == PageType::LEAF && old(
                self,
            ).pages@[old(self).spec_root()].spec_keys().len() < old(self).pages@[old(
                self,
            ).spec_root()].spec_max_items() {
                assert(leaf_idx as int == old(self).spec_root());
                assert(false);
            }
        }
        let (s0, n0) = match self.split_leaf_page(leaf_idx, key, value) {
            Ok(x) => x,
            Err(e) => {
                proof {
                    assert forall|k2: K, v2: V|
                        old(self).spec_maps(k2, v2) && !k2.eq_spec(*key) implies self.spec_maps(
                        k2,
                        v2,
                    ) by {
                        assert(old(self).spec_maps(k2, v2) ==> pre_split.spec_maps(k2, v2));
                        assert(*self == pre_split);
                    }
                }
                return Err(e);
            },
        };
        let mut sep: K = s0;
        let mut new_idx: u32 = n0;
        proof {
            assert forall|k2: K, v2: V|
                old(self).spec_maps(k2, v2) && !k2.eq_spec(*key) implies self.spec_maps(
                k2,
                v2,
            ) by {
                assert(old(self).spec_maps(k2, v2) ==> pre_split.spec_maps(k2, v2));
                assert(pre_split.spec_maps(k2, v2) ==> self.spec_maps(k2, v2));
            }
            lemma_prefix_push(old(self).dirty@, old(self).dirty@, n0);
            lemma_prefix_push(old(self).dirty@, old(self).dirty@.push(n0), leaf_idx);
        }
        let mut d: usize = path.len();
        while d > 0
            invariant_except_break
                self.wf(),
                sep.wf(),
                old(self).pages@.len() + 1 <= self.pages@.len(),
                self.spec_root() == old(self).spec_root(),
                self.pages@[0].page_type == PageType::META,
                old(self).dirty@.is_prefix_of(self.dirty@),
                forall|k2: K, v2: V|
                    old(self).spec_maps(k2, v2) && !k2.eq_spec(*key) ==> self.spec_maps(k2, v2),
                forall|k2: K, v2: V|
                    self.spec_maps(k2, v2) ==> old(self).spec_maps(k2, v2) || k2.eq_spec(*key),
                !(old(self).pages@[old(self).spec_root()].page_type == PageType::LEAF && old(
                    self,
                ).pages@[old(self).spec_root()].spec_keys().len() < old(self).pages@[old(
                    self,
                ).spec_root()].spec_max_items()),
                (old(self).pages@[old(self).spec_root()].page_type == PageType::LEAF
                    && spec_layout_ok::<K, V>(PageType::INTERNAL) && old(self).pages@.len() + 2
                    <= 0xffff_ffffu32) ==> d == 0 && self.pages@.len() == old(self).pages@.len()
                    + 1,
                1 <= new_idx < self.pages@.len(),
                self.pages@[new_idx as int].page_type != PageType::META,
                d <= path@.len(),
                forall|e: int|
                    0 <= e < path@.len() ==> 1 <= #[trigger] path@[e] < self.pages@.len()
                        && self.pages@[path@[e] as int].page_type == PageType::INTERNAL,
                self.spec_maps(*key, *value),
            ensures
                self.wf(),
                sep.wf(),
                1 <= new_idx < self.pages@.len(),
                self.pages@[new_idx as int].page_type != PageType::META,
                self.spec_maps(*key, *value),
                old(self).pages@.len() + 1 <= self.pages@.len(),
                self.spec_root() == old(self).spec_root(),
                self.pages@[0].page_type == PageType::META,
                old(self).dirty@.is_prefix_of(self.dirty@),
                forall|k2: K, v2: V|
                    old(self).spec_maps(k2, v2) && !k2.eq_spec(*key) ==> self.spec_maps(k2, v2),
                forall|k2: K, v2: V|
                    self.spec_maps(k2, v2) ==> old(self).spec_maps(k2, v2) || k2.eq_spec(*key),
                !(old(self).pages@[old(self).spec_root()].page_type == PageType::LEAF && old(
                    self,
                ).pages@[old(self).spec_root()].spec_keys().len() < old(self).pages@[old(
                    self,
                ).spec_root()].spec_max_items()),
                (old(self).pages@[old(self).spec_root()].page_type == PageType::LEAF
                    && spec_layout_ok::<K, V>(PageType::INTERNAL) && old(self).pages@.len() + 2
                    <= 0xffff_ffffu32) ==> self.pages@.len() == old(self).pages@.len() + 1,
            decreases d,
        {
            d = d - 1;
            let parent = path[d];
            let ghost pre = *self;
            let full = self.pages[parent as usize].is_full();
            if full {
                if self.pages[parent as usize].contains_key(&sep) {
                    return Err(TreeError::InvariantViolation);
                }
                match self.split_internal_page(parent, &sep, new_idx) {
                    Ok((s2, n2)) => {
                        proof {
                            assert forall|e: int|
                                0 <= e < path@.len() implies 1 <= #[trigger] path@[e]
                                < self.pages@.len() && self.pages@[path@[e] as int].page_type
                                == PageType::INTERNAL by {
                                if path@[e] != parent {
                                    assert(self.pages@[path@[e] as int] == pre.pages@[path@[
                                    e] as int]);
                                }
                            }
                            let (wi, wj) = choose|wi: int, wj: int|
                                {
                                    &&& 1 <= wi < pre.pages@.len()
                                    &&& pre.pages@[wi].page_type == PageType::LEAF
                                    &&& 0 <= wj < pre.pages@[wi].spec_keys().len()
                                    &&& (#[trigger] pre.pages@[wi].spec_keys()[wj]).eq_spec(*key)
                                    &&& pre.pages@[wi].spec_values()[wj].eq_spec(*value)
                                };
                            assert(wi != parent);
                            assert(self.pages@[wi] == pre.pages@[wi]);
                            assert({
                                &&& 1 <= wi < self.pages@.len()
                                &&& self.pages@[wi].page_type == PageType::LEAF
                                &&& 0 <= wj < self.pages@[wi].spec_keys().len()
                                &&& self.pages@[wi].spec_keys()[wj].eq_spec(*key)
                                &&& self.pages@[wi].spec_values()[wj].eq_spec(*value)
                            });
                        }
                        proof {
                            assert forall|k2: K, v2: V|
                                old(self).spec_maps(k2, v2) && !k2.eq_spec(
                                *key,
                            ) implies self.spec_maps(k2, v2) by {
                                assert(pre.spec_maps(k2, v2) ==> self.spec_maps(k2, v2));
                            }
                            assert forall|k2: K, v2: V|
                                self.spec_maps(k2, v2) implies old(self).spec_maps(k2, v2)
                                || k2.eq_spec(*key) by {
                                assert(self.spec_maps(k2, v2) ==> pre.spec_maps(k2, v2));
                            }
                            assert(pre.dirty@.is_prefix_of(pre.dirty@)) by {
                                assert(pre.dirty@ =~= pre.dirty@.subrange(
                                    0,
                                    pre.dirty@.len() as int,
                                ));
                            }
                            lemma_prefix_push(pre.dirty@, pre.dirty@, n2);
                            lemma_prefix_push(pre.dirty@, pre.dirty@.push(n2), parent);
                            lemma_prefix_extend(old(self).dirty@, pre.dirty@, self.dirty@);
                        }
                        sep = s2;
                        new_idx = n2;
                    },
                    Err(e) => {
                        return Err(e);
                    },
                }
            } else {
                let pg2 = &mut self.pages[parent as usize];
                let ghost old_parent = *pg2;
                match pg2.insert_ptr(&sep, new_idx) {
                    Ok(()) => {},
                    Err(_) => {
                        proof {
                            assert(false);
                        }
                        return Err(TreeError::InvariantViolation);
                    },
                }
                proof {
                    let pages = self.pages@;
                    let oldpages = pre.pages@;
                    assert forall|i: int| 1 <= i < pages.len() implies (#[trigger] pages[i]).inv()
                        && pages[i].page_type != PageType::META && pages[i].index == i by {
                        if i != parent {
                            assert(pages[i] == oldpages[i]);
                        }
                    }
                    assert forall|i: int|
                        1 <= i < pages.len() && (#[trigger] pages[i]).page_type
                            == PageType::INTERNAL implies 1 <= pages[i].spec_keys().len() by {
                        if i != parent {
                            assert(pages[i] == oldpages[i]);
                        }
                    }
                    assert forall|i: int, c: int|
                        1 <= i < pages.len() && (#[trigger] pages[i]).page_type
                            == PageType::INTERNAL && 0 <= c < pages[i].spec_ptrs().len() implies 1
                            <= #[trigger] pages[i].spec_ptrs()[c] < pages.len() by {
                        if i != parent {
                            assert(pages[i] == oldpages[i]);
                        } else {
                            if old_parent.spec_ptrs().contains(pages[i].spec_ptrs()[c]) {
                                let w = choose|w: int|
                                    0 <= w < old_parent.spec_ptrs().len()
                                        && old_parent.spec_ptrs()[w] == pages[i].spec_ptrs()[c];
                                assert(1 <= oldpages[i as int].spec_ptrs()[w] < oldpages.len());
                            }
                        }
                    }
                    let (wi, wj) = choose|wi: int, wj: int|
                        {
                            &&& 1 <= wi < pre.pages@.len()
                            &&& pre.pages@[wi].page_type == PageType::LEAF
                            &&& 0 <= wj < pre.pages@[wi].spec_keys().len()
                            &&& (#[trigger] pre.pages@[wi].spec_keys()[wj]).eq_spec(*key)
                            &&& pre.pages@[wi].spec_values()[wj].eq_spec(*value)
                        };
                    assert(wi != parent);
                    assert(self.pages@[wi] == pre.pages@[wi]);
                    assert({
                        &&& 1 <= wi < self.pages@.len()
                        &&& self.pages@[wi].page_type == PageType::LEAF
                        &&& 0 <= wj < self.pages@[wi].spec_keys().len()
                        &&& self.pages@[wi].spec_keys()[wj].eq_spec(*key)
                        &&& self.pages@[wi].spec_values()[wj].eq_spec(*value)
                    });
                }
                proof {
                    lemma_maps_preserved(pre, *self);
                    lemma_maps_preserved(*self, pre);
                    assert forall|k2: K, v2: V|
                        self.spec_maps(k2, v2) implies old(self).spec_maps(k2, v2) || k2.eq_spec(
                        *key,
                    ) by {
                        assert(self.spec_maps(k2, v2) ==> pre.spec_maps(k2, v2));
                    }
                    assert forall|k2: K, v2: V|
                        old(self).spec_maps(k2, v2) && !k2.eq_spec(*key) implies self.spec_maps(
                        k2,
                        v2,
                    ) by {
                        assert(pre.spec_maps(k2, v2) ==> self.spec_maps(k2, v2));
                    }
                    assert(pre.dirty@.is_prefix_of(pre.dirty@)) by {
                        assert(pre.dirty@ =~= pre.dirty@.subrange(0, pre.dirty@.len() as int));
                    }
                    lemma_prefix_push(pre.dirty@, pre.dirty@, parent);
                    lemma_prefix_push(pre.dirty@, pre.dirty@.push(parent), 0u32);
                    lemma_prefix_extend(
                        old(self).dirty@,
                        pre.dirty@,
                        pre.dirty@.push(parent).push(0u32),
                    );
                }
                self.dirty.push(parent);
                self.dirty.push(0);
                return Ok(());
            }
        }
        let old_root = self.pages[0].root_index();
        let ghost pre_root = *self;
        let mut nr = match self.new_page(PageType::INTERNAL) {
            Ok(p) => p,
            Err(e) => {
                return Err(e);
            },
        };
        match nr.set_ptr_at(0, old_root) {
            Ok(()) => {},
            Err(_) => {
                proof {
                    assert(false);
                }
                return Err(TreeError::InvariantViolation);
            },
        }
        match nr.insert_ptr(&sep, new_idx) {
            Ok(()) => {},
            Err(_) => {
                proof {
                    assert(false);
                }
                return Err(TreeError::InvariantViolation);
            },
        }
        let nri = nr.index;
        proof {
            assert forall|c: int|
                0 <= c < nr.spec_ptrs().len() implies 1 <= #[trigger] nr.spec_ptrs()[c]
                    < self.pages@.len() by {
                let base = seq![0u32].update(0, old_root);
                if base.contains(nr.spec_ptrs()[c]) {
                    let w = choose|w: int|
                        0 <= w < base.len() && base[w] == nr.spec_ptrs()[c];
                    assert(base[w] == old_root);
                }
            }
        }
        self.push_page(nr);
        proof {
            assert(pre_root.dirty@.is_prefix_of(pre_root.dirty@)) by {
                assert(pre_root.dirty@ =~= pre_root.dirty@.subrange(
                    0,
                    pre_root.dirty@.len() as int,
                ));
            }
            lemma_prefix_push(pre_root.dirty@, pre_root.dirty@, nri);
            lemma_prefix_push(pre_root.dirty@, pre_root.dirty@.push(nri), 0u32);
            lemma_prefix_extend(
                old(self).dirty@,
                pre_root.dirty@,
                pre_root.dirty@.push(nri).push(0u32),
            );
        }
        let m = &mut self.pages[0];
        m.set_root_index(nri);
        proof {
            let pages = self.pages@;
            let prepages = pre_root.pages@;
            assert forall|i: int| 1 <= i < pages.len() implies (#[trigger] pages[i]).inv()
                && pages[i].page_type != PageType::META && pages[i].index == i by {}
            let (wi, wj) = choose|wi: int, wj: int|
                {
                    &&& 1 <= wi < pre_root.pages@.len()
                    &&& pre_root.pages@[wi].page_type == PageType::LEAF
                    &&& 0 <= wj < pre_root.pages@[wi].spec_keys().len()
                    &&& (#[trigger] pre_root.pages@[wi].spec_keys()[wj]).eq_spec(*key)
                    &&& pre_root.pages@[wi].spec_values()[wj].eq_spec(*value)
                };
            assert(self.pages@[wi] == pre_root.pages@[wi]);
            assert({
                &&& 1 <= wi < self.pages@.len()
                &&& self.pages@[wi].page_type == PageType::LEAF
                &&& 0 <= wj < self.pages@[wi].spec_keys().len()
                &&& self.pages@[wi].spec_keys()[wj].eq_spec(*key)
                &&& self.pages@[wi].spec_values()[wj].eq_spec(*value)
            });
            lemma_maps_preserved(pre_root, *self);
            lemma_maps_preserved(*self, pre_root);
            assert forall|k2: K, v2: V|
                self.spec_maps(k2, v2) implies old(self).spec_maps(k2, v2) || k2.eq_spec(
                *key,
            ) by {
                assert(self.spec_maps(k2, v2) ==> pre_root.spec_maps(k2, v2));
            }
            assert forall|k2: K, v2: V|
                old(self).spec_maps(k2, v2) && !k2.eq_spec(*key) implies self.spec_maps(
                k2,
                v2,
            ) by {
                assert(pre_root.spec_maps(k2, v2) ==> self.spec_maps(k2, v2));
            }
        }
        self.dirty.push(0);
        Ok(())
    }

    /// The whole page store as one byte image: page `i` occupies bytes
    /// `i * PAGE_SIZE .. (i + 1) * PAGE_SIZE`, ready to be written as the
    /// tree's file.
    pub fn to_bytes(&self) -> (out: Vec<u8>)
        requires
            self.wf(),
        ensures
            out@.len() == self.pages@.len() * (PAGE_SIZE as int),
            forall|i: int|
                0 <= i < self.pages@.len() ==> (#[trigger] self.pages@[i]).spec_repr(
                    out@.subrange(i * (PAGE_SIZE as int), (i + 1) * (PAGE_SIZE as int)),
                ),
            self.spec_image_of(out@),
    {
        let mut out: Vec<u8> = Vec::new();
        let n = self.pages.len();
        let mut i: usize = 0;
        while i < n
            invariant
                self.wf(),
                n == self.pages@.len(),
                i <= n,
                out@.len() == i * (PAGE_SIZE as int),
                forall|q: int|
                    0 <= q < i ==> (#[trigger] self.pages@[q]).spec_repr(
                        out@.subrange(q * (PAGE_SIZE as int), (q + 1) * (PAGE_SIZE as int)),
                    ),
            decreases n - i,
        {
            let ghost pre = out@;
            let mut b = self.pages[i].to_bytes();
            let ghost bsnap = b@;
            out.append(&mut b);
            proof {
                assert forall|q: int|
                    0 <= q < i + 1 implies (#[trigger] self.pages@[q]).spec_repr(
                    out@.subrange(q * (PAGE_SIZE as int), (q + 1) * (PAGE_SIZE as int)),
                ) by {
                    if q < i {
                        assert(out@.subrange(q * (PAGE_SIZE as int), (q + 1) * (PAGE_SIZE as int))
                            =~= pre.subrange(q * (PAGE_SIZE as int), (q + 1) * (PAGE_SIZE as int)));
                    } else {
                        assert(out@.subrange(q * (PAGE_SIZE as int), (q + 1) * (PAGE_SIZE as int))
                            =~= bsnap);
                    }
                }
            }
            i = i + 1;
        }
        out
    }

    /// A tree opened from a byte image: the image is cut into pages, each
    /// page is decoded, and the store is checked to be well-formed — the
    /// meta page first, its recorded page count and root index, and every
    /// internal page's item count and pointer targets.
    pub fn open_bytes(data: &Vec<u8>) -> (r: Result<Self, TreeError>)
        ensures
            match r {
                Ok(t) => {
                    &&& t.wf()
                    &&& t.dirty@.len() == 0
                    &&& data@.len() == t.pages@.len() * (PAGE_SIZE as int)
                    &&& forall|i: int|
                        0 <= i < t.pages@.len() ==> (#[trigger] t.pages@[i]).spec_repr_canon(
                            data@.subrange(i * (PAGE_SIZE as int), (i + 1) * (PAGE_SIZE as int)),
                        )
                },
                Err(e) => e == TreeError::Malformed || e == TreeError::InvariantViolation,
            },
            forall|t: BTree<K, V>| t.wf() && #[trigger] t.spec_image_of(data@) ==> r is Ok,
    {
        let dlen = data.len();
        if dlen < 2 * PAGE_SIZE {
            proof {
                assert forall|t: BTree<K, V>|
                    !(t.wf() && #[trigger] t.spec_image_of(data@)) by {}
            }
            return Err(TreeError::Malformed);
        }
        let n = dlen / PAGE_SIZE;
        proof {
            vstd::arithmetic::div_mod::lemma_fundamental_div_mod(dlen as int, PAGE_SIZE as int);
            vstd::arithmetic::div_mod::lemma_mod_division_less_than_divisor(
                dlen as int,
                PAGE_SIZE as int,
            );
        }
        if n * PAGE_SIZE != dlen {
            proof {
                assert forall|t: BTree<K, V>|
                    !(t.wf() && #[trigger] t.spec_image_of(data@)) by {}
            }
            return Err(TreeError::Malformed);
        }
        if n > 0xffff_ffffusize {
            proof {
                assert forall|t: BTree<K, V>|
                    !(t.wf() && #[trigger] t.spec_image_of(data@)) by {}
            }
            return Err(TreeError::Malformed);
        }
        let mut pages: Vec<Page<K, V>> = Vec::new();
        let mut off: usize = 0;
        let mut i: usize = 0;
        while i < n
            invariant
                dlen == data@.len(),
                dlen == n * (PAGE_SIZE as int),
                2 <= n <= 0xffff_ffffusize,
                off == i * (PAGE_SIZE as int),
                i <= n,
                pages@.len() == i,
                forall|q: int|
                    0 <= q < i ==> (#[trigger] pages@[q]).inv() && pages@[q].index == q
                        && pages@[q].spec_repr_canon(
                        data@.subrange(q * (PAGE_SIZE as int), (q + 1) * (PAGE_SIZE as int)),
                    ),
            decreases n - i,
        {
            let mut chunk: Vec<u8> = Vec::new();
            let mut t: usize = 0;
            while t < PAGE_SIZE
                invariant
                    dlen == data@.len(),
                    off + PAGE_SIZE <= dlen,
                    chunk@.len() == t,
                    t <= PAGE_SIZE,
                    forall|u: int| 0 <= u < t ==> #[trigger] chunk@[u] == data@[off + u],
                decreases PAGE_SIZE - t,
            {
                chunk.push(data[off + t]);
                t = t + 1;
            }
            proof {
                assert(chunk@ =~= data@.subrange(off as int, off + PAGE_SIZE));
            }
            let pg = match Page::<K, V>::from_bytes(i as u32, &chunk) {
                Ok(p) => p,
                Err(_) => {
                    proof {
                        assert forall|t: BTree<K, V>|
                            !(t.wf() && #[trigger] t.spec_image_of(data@)) by {
                            if t.wf() && t.spec_image_of(data@) {
                                assert(t.pages@.len() == n);
                                assert(t.pages@[i as int].inv());
                                assert(t.pages@[i as int].spec_repr(
                                    data@.subrange(
                                        i as int * (PAGE_SIZE as int),
                                        (i as int + 1) * (PAGE_SIZE as int),
                                    ),
                                ));
                                assert(chunk@ == data@.subrange(
                                    i as int * (PAGE_SIZE as int),
                                    (i as int + 1) * (PAGE_SIZE as int),
                                ));
                                assert(t.pages@[i as int].spec_repr(chunk@));
                                assert(false);
                            }
                        }
                    }
                    return Err(TreeError::Malformed);
                },
            };
            pages.push(pg);
            off = off + PAGE_SIZE;
            i = i + 1;
        }
        if !(matches!(pages[0].page_type, PageType::META)) {
            proof {
                assert forall|t: BTree<K, V>|
                    !(t.wf() && #[trigger] t.spec_image_of(data@)) by {
                    if t.wf() && t.spec_image_of(data@) {
                        crate::page::lemma_repr_read_back(
                            t.pages@[0],
                            pages@[0],
                            data@.subrange(0, PAGE_SIZE as int),
                        );
                        assert(false);
                    }
                }
            }
            return Err(TreeError::Malformed);
        }
        let root = pages[0].root_index();
        let total = pages[0].total_pages();
        if total as usize != n {
            proof {
                assert forall|t: BTree<K, V>|
                    !(t.wf() && #[trigger] t.spec_image_of(data@)) by {
                    if t.wf() && t.spec_image_of(data@) {
                        crate::page::lemma_repr_read_back(
                            t.pages@[0],
                            pages@[0],
                            data@.subrange(0, PAGE_SIZE as int),
                        );
                        assert(false);
                    }
                }
            }
            return Err(TreeError::Malformed);
        }
        if root == 0 || root as usize >= n {
            proof {
                assert forall|t: BTree<K, V>|
                    !(t.wf() && #[trigger] t.spec_image_of(data@)) by {
                    if t.wf() && t.spec_image_of(data@) {
                        crate::page::lemma_repr_read_back(
                            t.pages@[0],
                            pages@[0],
                            data@.subrange(0, PAGE_SIZE as int),
                        );
                        assert(false);
                    }
                }
            }
            return Err(TreeError::Malformed);
        }
        let mut q: usize = 1;
        while q < n
            invariant
                dlen == data@.len(),
                dlen == n * (PAGE_SIZE as int),
                pages@.len() == n,
                2 <= n <= 0xffff_ffffusize,
                1 <= q <= n,
                forall|w: int|
                    0 <= w < n ==> (#[trigger] pages@[w]).inv() && pages@[w].index == w,
                forall|w: int|
                    0 <= w < n ==> (#[trigger] pages@[w]).spec_repr_canon(
                        data@.subrange(w * (PAGE_SIZE as int), (w + 1) * (PAGE_SIZE as int)),
                    ),
                forall|w: int|
                    1 <= w < q ==> (#[trigger] pages@[w]).page_type != PageType::META,
                forall|w: int|
                    1 <= w < q && (#[trigger] pages@[w]).page_type == PageType::INTERNAL ==> 1
                        <= pages@[w].spec_keys().len(),
                forall|w: int, c: int|
                    1 <= w < q && (#[trigger] pages@[w]).page_type == PageType::INTERNAL && 0 <= c
                        < pages@[w].spec_ptrs().len() ==> 1 <= #[trigger] pages@[w].spec_ptrs()[c]
                        < n,
            decreases n - q,
        {
            let pg = &pages[q];
            match pg.page_type {
                PageType::META => {
                    proof {
                        assert forall|t: BTree<K, V>|
                            !(t.wf() && #[trigger] t.spec_image_of(data@)) by {
                            if t.wf() && t.spec_image_of(data@) {
                                crate::page::lemma_repr_read_back(
                                    t.pages@[q as int],
                                    pages@[q as int],
                                    data@.subrange(
                                        q as int * (PAGE_SIZE as int),
                                        (q as int + 1) * (PAGE_SIZE as int),
                                    ),
                                );
                                assert(false);
                            }
                        }
                    }
                    return Err(TreeError::Malformed);
                },
                PageType::LEAF => {},
                PageType::INTERNAL => {
                    if pg.item_count() == 0 {
                        proof {
                            assert forall|t: BTree<K, V>|
                                !(t.wf() && #[trigger] t.spec_image_of(data@)) by {
                                if t.wf() && t.spec_image_of(data@) {
                                    crate::page::lemma_repr_read_back(
                                        t.pages@[q as int],
                                        pages@[q as int],
                                        data@.subrange(
                                            q as int * (PAGE_SIZE as int),
                                            (q as int + 1) * (PAGE_SIZE as int),
                                        ),
                                    );
                                    assert(false);
                                }
                            }
                        }
                        return Err(TreeError::Malformed);
                    }
                    let pcount = pg.item_count() + 1;
                    let mut c: usize = 0;
                    while c < pcount
                        invariant
                            dlen == data@.len(),
                            dlen == n * (PAGE_SIZE as int),
                            pg.inv(),
                            pg.page_type == PageType::INTERNAL,
                            1 <= q < n,
                            pg.spec_repr_canon(
                                data@.subrange(
                                    q as int * (PAGE_SIZE as int),
                                    (q as int + 1) * (PAGE_SIZE as int),
                                ),
                            ),
                            pcount == pg.spec_ptrs().len(),
                            c <= pcount,
                            2 <= n <= 0xffff_ffffusize,
                            forall|e: int|
                                0 <= e < c ==> 1 <= #[trigger] pg.spec_ptrs()[e] < n,
                        decreases pcount - c,
                    {
                        match pg.ptr_at(c) {
                            Some(ptr) => {
                                if ptr == 0 || ptr as usize >= n {
                                    proof {
                                        assert forall|t: BTree<K, V>|
                                            !(t.wf() && #[trigger] t.spec_image_of(data@)) by {
                                            if t.wf() && t.spec_image_of(data@) {
                                                crate::page::lemma_repr_read_back(
                                                    t.pages@[q as int],
                                                    *pg,
                                                    data@.subrange(
                                                        q as int * (PAGE_SIZE as int),
                                                        (q as int + 1) * (PAGE_SIZE as int),
                                                    ),
                                                );
                                                assert(1 <= t.pages@[q as int].spec_ptrs()[
                                                c as int] < t.pages@.len());
                                                assert(false);
                                            }
                                        }
                                    }
                                    return Err(TreeError::Malformed);
                                }
                            },
                            None => {
                                proof {
                                    assert(false);
                                }
                                return Err(TreeError::Malformed);
                            },
                        }
                        c = c + 1;
                    }
                },
            }
            q = q + 1;
        }
        let tree = BTree { pages, dirty: Vec::new() };
        Ok(tree)
    }

    /// Point lookup: walks internal pages from the root by binary search
    /// and hands back a copy of the value stored in the leaf. A value
    /// comes back only for a key some leaf holds; when the root itself is
    /// a leaf, absence is exact as well.
    pub fn get(&self, key: &K) -> (r: Option<V>)
        requires
            self.wf(),
        ensures
            match r {
                Some(v) => {
                    &&& v.wf()
                    &&& self.spec_maps(*key, v)
                    &&& self.pages@[self.spec_root()].page_type == PageType::LEAF ==> exists|
                        j: int,
                    |
                        {
                            &&& 0 <= j < self.pages@[self.spec_root()].spec_keys().len()
                            &&& (#[trigger] self.pages@[self.spec_root()].spec_keys()[
                            j]).eq_spec(*key)
                            &&& v.eq_spec(self.pages@[self.spec_root()].spec_values()[j])
                        }
                },
                None => self.pages@[self.spec_root()].page_type == PageType::LEAF ==> !has_key(
                    self.pages@[self.spec_root()].spec_keys(),
                    *key,
                ),
            },
    {
        let mut cur: u32 = self.pages[0].root_index();
        let mut steps: usize = 0;
        loop
            invariant
                self.wf(),
                1 <= cur < self.pages@.len(),
                self.pages@[cur as int].page_type != PageType::META,
                steps <= self.pages@.len(),
                self.pages@[self.spec_root()].page_type == PageType::LEAF ==> cur
                    == self.spec_root(),
            decreases self.pages@.len() - steps,
        {
            let p = &self.pages[cur as usize];
            let ghost keys = p.spec_keys();
            match p.page_type {
                PageType::LEAF => {
                    match p.find(key) {
                        Some((i, Pos::Current)) => {
                            match p.value_at(i) {
                                Some(v) => {
                                    proof {
                                        V::lemma_eq_spec(v, p.spec_values()[i as int], v);
                                        let ci = cur as int;
                                        let ji = i as int;
                                        assert(self.spec_maps(*key, v)) by {
                                            assert({
                                                &&& 1 <= ci < self.pages@.len()
                                                &&& self.pages@[ci].page_type == PageType::LEAF
                                                &&& 0 <= ji < self.pages@[ci].spec_keys().len()
                                                &&& self.pages@[ci].spec_keys()[ji].eq_spec(*key)
                                                &&& self.pages@[ci].spec_values()[ji].eq_spec(v)
                                            });
                                        }
                                    }
                                    return Some(v);
                                },
                                None => {
                                    proof {
                                        assert(false);
                                    }
                                    return None;
                                },
                            }
                        },
                        Some((i, Pos::Left)) => {
                            proof {
                                assert forall|j: int| 0 <= j < keys.len() implies key.lt_spec(
                                    #[trigger] keys[j],
                                ) by {
                                    if j > 0 {
                                        K::lemma_order(*key, keys[0], keys[j]);
                                    }
                                }
                                crate::page::lemma_bounds_locate(keys, *key, 0);
                            }
                            return None;
                        },
                        Some((i, Pos::Right)) => {
                            proof {
                                assert forall|j: int| 0 <= j <= i implies (#[trigger] keys[j])
                                    .lt_spec(*key) by {
                                    if j < i {
                                        K::lemma_order(keys[j], keys[i as int], *key);
                                    }
                                }
                                assert forall|j: int|
                                    i + 1 <= j < keys.len() implies key.lt_spec(
                                    #[trigger] keys[j],
                                ) by {
                                    if j > i + 1 {
                                        K::lemma_order(*key, keys[i + 1], keys[j]);
                                    }
                                }
                                crate::page::lemma_bounds_locate(keys, *key, i + 1);
                            }
                            return None;
                        },
                        None => {
                            return None;
                        },
                    }
                },
                PageType::INTERNAL => {
                    match p.find(key) {
                        Some((i, pos)) => {
                            let ptr_index = if let Pos::Left = pos {
                                i
                            } else {
                                i + 1
                            };
                            match p.ptr_at(ptr_index) {
                                Some(child) => {
                                    cur = child;
                                },
                                None => {
                                    proof {
                                        assert(false);
                                    }
                                    return None;
                                },
                            }
                        },
                        None => {
                            proof {
                                assert(false);
                            }
                            return None;
                        },
                    }
                    if steps >= self.pages.len() {
                        return None;
                    }
                    steps = steps + 1;
                },
                PageType::META => {
                    proof {
                        assert(false);
                    }
                    return None;
                },
            }
        }
    }
}

/// Between two stores whose leaf pages coincide — every leaf page of
/// the first sits unchanged at its index in the second — every mapping
/// of the first holds in the second.
pub proof fn lemma_maps_preserved<K, V>(a: BTree<K, V>, b: BTree<K, V>) where
    K: KeyOrd + Encodable + Decodable,
    V: Encodable + Decodable,

    requires
        forall|i: int|
            1 <= i < a.pages@.len() && (#[trigger] a.pages@[i]).page_type == PageType::LEAF ==> i
                < b.pages@.len() && b.pages@[i] == a.pages@[i],
    ensures
        forall|k2: K, v2: V| a.spec_maps(k2, v2) ==> b.spec_maps(k2, v2),
{
    assert forall|k2: K, v2: V| a.spec_maps(k2, v2) implies b.spec_maps(k2, v2) by {
        let (wi, wj) = choose|wi: int, wj: int|
            {
                &&& 1 <= wi < a.pages@.len()
                &&& a.pages@[wi].page_type == PageType::LEAF
                &&& 0 <= wj < a.pages@[wi].spec_keys().len()
                &&& (#[trigger] a.pages@[wi].spec_keys()[wj]).eq_spec(k2)
                &&& a.pages@[wi].spec_values()[wj].eq_spec(v2)
            };
        assert(b.pages@[wi] == a.pages@[wi]);
        assert({
            &&& 1 <= wi < b.pages@.len()
            &&& b.pages@[wi].page_type == PageType::LEAF
            &&& 0 <= wj < b.pages@[wi].spec_keys().len()
            &&& b.pages@[wi].spec_keys()[wj].eq_spec(k2)
            &&& b.pages@[wi].spec_values()[wj].eq_spec(v2)
        });
    }
}

/// A prefix of a sequence is a prefix of that sequence grown by one.
pub proof fn lemma_prefix_push<T>(a: Seq<T>, b: Seq<T>, x: T)
    requires
        a.is_prefix_of(b),
    ensures
        a.is_prefix_of(b.push(x)),
{
    assert(a =~= b.push(x).subrange(0, a.len() as int));
}

/// A prefix stays a prefix when the longer sequence grows at its end.
pub proof fn lemma_prefix_extend<T>(a: Seq<T>, b: Seq<T>, c: Seq<T>)
    requires
        a.is_prefix_of(b),
        b.is_prefix_of(c),
    ensures
        a.is_prefix_of(c),
{
    assert(a =~= c.subrange(0, a.len() as int));
}

/// Key ordering: in a well-formed page store every page keeps its keys
/// strictly ascending, whatever sequence of insertions produced it.
pub proof fn lemma_wf_pages_sorted<K, V>(t: BTree<K, V>) where
    K: KeyOrd + Encodable + Decodable,
    V: Encodable + Decodable,

    requires
        t.wf(),
    ensures
        forall|i: int|
            0 <= i < t.pages@.len() ==> crate::page::sorted_strict(
                (#[trigger] t.pages@[i]).spec_keys(),
            ),
{
    assert forall|i: int|
        0 <= i < t.pages@.len() implies crate::page::sorted_strict(
        (#[trigger] t.pages@[i]).spec_keys(),
    ) by {
        assert(t.pages@[i].inv());
    }
}

/// Persistence: a page store opened from the byte image a well-formed
/// tree wrote has the same root index and, page for page and slot for
/// slot, the same page kinds, the same pointers, and keys and values the
/// store treats as the same — so reopening the file preserves what every
/// lookup reads. The hypotheses are exactly what `to_bytes` and
/// `open_bytes` establish about the image.
pub proof fn lemma_store_round_trip<K, V>(t: BTree<K, V>, u: BTree<K, V>, b: Seq<u8>) where
    K: KeyOrd + Encodable + Decodable,
    V: Encodable + Decodable,

    requires
        t.wf(),
        u.wf(),
        u.pages@.len() == t.pages@.len(),
        forall|i: int|
            0 <= i < t.pages@.len() ==> (#[trigger] t.pages@[i]).spec_repr(
                b.subrange(i * (PAGE_SIZE as int), (i + 1) * (PAGE_SIZE as int)),
            ),
        forall|i: int|
            0 <= i < u.pages@.len() ==> (#[trigger] u.pages@[i]).spec_repr_canon(
                b.subrange(i * (PAGE_SIZE as int), (i + 1) * (PAGE_SIZE as int)),
            ),
    ensures
        u.spec_root() == t.spec_root(),
        forall|i: int|
            0 <= i < t.pages@.len() ==> {
                &&& (#[trigger] u.pages@[i]).page_type == t.pages@[i].page_type
                &&& u.pages@[i].spec_keys().len() == t.pages@[i].spec_keys().len()
                &&& u.pages@[i].spec_values().len() == t.pages@[i].spec_values().len()
                &&& u.pages@[i].spec_ptrs() == t.pages@[i].spec_ptrs()
            },
        forall|i: int, j: int|
            0 <= i < t.pages@.len() && 0 <= j < t.pages@[i].spec_keys().len() ==> (
            #[trigger] u.pages@[i].spec_keys()[j]).eq_spec(t.pages@[i].spec_keys()[j]),
        forall|i: int, j: int|
            0 <= i < t.pages@.len() && 0 <= j < t.pages@[i].spec_values().len() ==> (
            #[trigger] u.pages@[i].spec_values()[j]).eq_spec(t.pages@[i].spec_values()[j]),
{
    assert forall|i: int|
        0 <= i < t.pages@.len() implies {
        &&& (#[trigger] u.pages@[i]).page_type == t.pages@[i].page_type
        &&& u.pages@[i].spec_keys().len() == t.pages@[i].spec_keys().len()
        &&& u.pages@[i].spec_values().len() == t.pages@[i].spec_values().len()
        &&& u.pages@[i].spec_ptrs() == t.pages@[i].spec_ptrs()
    } by {
        crate::page::lemma_repr_read_back(
            t.pages@[i],
            u.pages@[i],
            b.subrange(i * (PAGE_SIZE as int), (i + 1) * (PAGE_SIZE as int)),
        );
    }
    assert forall|i: int, j: int|
        0 <= i < t.pages@.len() && 0 <= j < t.pages@[i].spec_keys().len() implies (
    #[trigger] u.pages@[i].spec_keys()[j]).eq_spec(t.pages@[i].spec_keys()[j]) by {
        crate::page::lemma_repr_read_back(
            t.pages@[i],
            u.pages@[i],
            b.subrange(i * (PAGE_SIZE as int), (i + 1) * (PAGE_SIZE as int)),
        );
    }
    assert forall|i: int, j: int|
        0 <= i < t.pages@.len() && 0 <= j < t.pages@[i].spec_values().len() implies (
    #[trigger] u.pages@[i].spec_values()[j]).eq_spec(t.pages@[i].spec_values()[j]) by {
        crate::page::lemma_repr_read_back(
            t.pages@[i],
            u.pages@[i],
            b.subrange(i * (PAGE_SIZE as int), (i + 1) * (PAGE_SIZE as int)),
        );
    }
    crate::page::lemma_repr_read_back(t.pages@[0], u.pages@[0], b.subrange(0, PAGE_SIZE as int));
}

} // verus!
