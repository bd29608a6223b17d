//! Mask-guided search over a three-level tree.
//!
//! Every traversal of a storage or a journal looks for the next slot with
//! some property. The masks tell where not to look: a clear bit at the top
//! rules out a page, a clear bit in a page rules out a chunk, and the bits of
//! a chunk decide slot by slot.

use crate::bits::{bit_set, next_set_bit};
use vstd::prelude::*;

verus! {

/// Number of slots that a three-level tree addresses.
pub const TREE_SLOTS: u32 = 262144;

/// The index of slot `c` of chunk `p` of page `s`.
pub open spec fn slot_index(s: int, p: int, c: int) -> int {
    s * 4096 + p * 64 + c
}

/// The page that a slot index falls in.
pub open spec fn page_of(index: int) -> int {
    index / 4096
}

/// The chunk, within its page, that a slot index falls in.
pub open spec fn chunk_of(index: int) -> int {
    (index / 64) % 64
}

/// The position, within its chunk, of a slot index.
pub open spec fn offset_of(index: int) -> int {
    index % 64
}

/// A slot index and its three coordinates determine each other.
pub proof fn lemma_coordinates(index: int)
    requires
        0 <= index < 262144,
    ensures
        0 <= page_of(index) < 64,
        0 <= chunk_of(index) < 64,
        0 <= offset_of(index) < 64,
        slot_index(page_of(index), chunk_of(index), offset_of(index)) == index,
{
}

/// The coordinates of a slot index made from coordinates are those coordinates.
pub proof fn lemma_slot_index(s: int, p: int, c: int)
    requires
        0 <= s < 64,
        0 <= p < 64,
        0 <= c < 64,
    ensures
        0 <= slot_index(s, p, c) < 262144,
        page_of(slot_index(s, p, c)) == s,
        chunk_of(slot_index(s, p, c)) == p,
        offset_of(slot_index(s, p, c)) == c,
{
}

/// A tree whose masks summarise a property of its slots.
pub trait MaskTree {
    /// The property that is searched for, of slot `c` of chunk `p` of page `s`.
    spec fn hit(&self, s: int, p: int, c: int) -> bool;

    /// What the tree needs to answer for its masks.
    spec fn scan_wf(&self) -> bool;

    /// A mask whose bit `s` is set wherever page `s` has a slot with the property.
    fn top_mask(&self) -> (m: u64)
        requires
            self.scan_wf(),
        ensures
            forall|s: int, p: int, c: int|
                0 <= s < 64 && 0 <= p < 64 && 0 <= c < 64 && #[trigger] self.hit(s, p, c) ==> bit_set(m, s),
    ;

    /// A mask whose bit `p` is set wherever chunk `p` of page `s` has a slot
    /// with the property.
    fn page_mask(&self, s: u32) -> (m: u64)
        requires
            self.scan_wf(),
            s < 64,
        ensures
            forall|p: int, c: int|
                0 <= p < 64 && 0 <= c < 64 && #[trigger] self.hit(s as int, p, c) ==> bit_set(m, p),
    ;

    /// The mask whose bit `c` is set exactly where slot `c` of chunk `p` of
    /// page `s` has the property.
    fn chunk_mask(&self, s: u32, p: u32) -> (m: u64)
        requires
            self.scan_wf(),
            s < 64,
            p < 64,
        ensures
            forall|c: int| 0 <= c < 64 ==> (#[trigger] bit_set(m, c) <==> self.hit(s as int, p as int, c)),
    ;
}

/// The property of a tree's slots, by slot index.
pub open spec fn hit_at<M: MaskTree>(tree: &M, index: int) -> bool {
    tree.hit(page_of(index), chunk_of(index), offset_of(index))
}

/// The lowest slot at or above `from` that has the property, if there is one.
pub fn first_match<M: MaskTree>(tree: &M, from: u32) -> (r: Option<u32>)
    requires
        tree.scan_wf(),
    ensures
        r.is_some() ==> from <= r.unwrap() < 262144 && hit_at(tree, r.unwrap() as int) && forall|j: int|
            from <= j < r.unwrap() ==> !hit_at(tree, j),
        r.is_none() ==> forall|j: int| from <= j < 262144 ==> !hit_at(tree, j),
{
    if from >= TREE_SLOTS {
        return None;
    }
    let top = tree.top_mask();
    let mut s: u32 = from / 4096;
    let mut p: u32 = (from / 64) % 64;
    let mut c: u32 = from % 64;
    loop
        invariant
            tree.scan_wf(),
            s < 64,
            p < 64,
            c < 64,
            from <= slot_index(s as int, p as int, c as int),
            forall|a: int, b: int, d: int|
                0 <= a < 64 && 0 <= b < 64 && 0 <= d < 64 && from <= slot_index(a, b, d) < slot_index(
                    s as int,
                    p as int,
                    c as int,
                ) ==> !#[trigger] tree.hit(a, b, d),
            forall|a: int, b: int, d: int|
                0 <= a < 64 && 0 <= b < 64 && 0 <= d < 64 && #[trigger] tree.hit(a, b, d) ==> bit_set(top, a),
        decreases 262144 - slot_index(s as int, p as int, c as int),
    {
        match next_set_bit(top, s) {
            None => {
                assert forall|j: int| from <= j < 262144 implies !hit_at(tree, j) by {
                    lemma_coordinates(j);
                    if tree.hit(page_of(j), chunk_of(j), offset_of(j)) {
                        assert(bit_set(top, page_of(j)));
                    }
                }
                return None;
            },
            Some(page_at) => {
                if page_at > s {
                    proof {
                        assert forall|a: int, b: int, d: int|
                            0 <= a < 64 && 0 <= b < 64 && 0 <= d < 64 && from <= slot_index(a, b, d)
                                < slot_index(page_at as int, 0, 0) implies !#[trigger] tree.hit(a, b, d) by {
                            if slot_index(a, b, d) >= slot_index(s as int, p as int, c as int) && tree.hit(a, b, d) {
                                assert(bit_set(top, a));
                            }
                        }
                    }
                    s = page_at;
                    p = 0;
                    c = 0;
                    continue;
                }
            },
        }
        let pm = tree.page_mask(s);
        match next_set_bit(pm, p) {
            None => {
                if s == 63 {
                    assert forall|j: int| from <= j < 262144 implies !hit_at(tree, j) by {
                        lemma_coordinates(j);
                        if tree.hit(page_of(j), chunk_of(j), offset_of(j)) {
                            assert(bit_set(pm, chunk_of(j)));
                        }
                    }
                    return None;
                }
                proof {
                    assert forall|a: int, b: int, d: int|
                        0 <= a < 64 && 0 <= b < 64 && 0 <= d < 64 && from <= slot_index(a, b, d)
                            < slot_index(s as int + 1, 0, 0) implies !#[trigger] tree.hit(a, b, d) by {
                        if slot_index(a, b, d) >= slot_index(s as int, p as int, c as int) && tree.hit(a, b, d) {
                            assert(bit_set(pm, b));
                        }
                    }
                }
                s = s + 1;
                p = 0;
                c = 0;
                continue;
            },
            Some(chunk_at) => {
                if chunk_at > p {
                    proof {
                        assert forall|a: int, b: int, d: int|
                            0 <= a < 64 && 0 <= b < 64 && 0 <= d < 64 && from <= slot_index(a, b, d)
                                < slot_index(s as int, chunk_at as int, 0) implies !#[trigger] tree.hit(a, b, d) by {
                            if slot_index(a, b, d) >= slot_index(s as int, p as int, c as int) && tree.hit(a, b, d) {
                                assert(bit_set(pm, b));
                            }
                        }
                    }
                    p = chunk_at;
                    c = 0;
                    continue;
                }
            },
        }
        let cm = tree.chunk_mask(s, p);
        let ghost s0 = s;
        let ghost p0 = p;
        let ghost c0 = c;
        match next_set_bit(cm, c) {
            Some(slot_at) => {
                let found: u32 = s * 4096 + p * 64 + slot_at;
                assert forall|j: int| from <= j < found implies !hit_at(tree, j) by {
                    lemma_coordinates(j);
                    if tree.hit(page_of(j), chunk_of(j), offset_of(j)) {
                        assert(bit_set(cm, offset_of(j)));
                    }
                }
                proof {
                    lemma_slot_index(s as int, p as int, slot_at as int);
                }
                return Some(found);
            },
            None => {
                if p == 63 {
                    if s == 63 {
                        assert forall|j: int| from <= j < 262144 implies !hit_at(tree, j) by {
                            lemma_coordinates(j);
                            if tree.hit(page_of(j), chunk_of(j), offset_of(j)) {
                                assert(bit_set(cm, offset_of(j)));
                            }
                        }
                        return None;
                    }
                    s = s + 1;
                    p = 0;
                } else {
                    p = p + 1;
                }
                c = 0;
                proof {
                    assert forall|a: int, b: int, d: int|
                        0 <= a < 64 && 0 <= b < 64 && 0 <= d < 64 && from <= slot_index(a, b, d) < slot_index(
                            s as int,
                            p as int,
                            c as int,
                        ) implies !#[trigger] tree.hit(a, b, d) by {
                        if slot_index(a, b, d) >= slot_index(s0 as int, p0 as int, c0 as int) && tree.hit(
                            a,
                            b,
                            d,
                        ) {
                            assert(bit_set(cm, d));
                        }
                    }
                }
            },
        }
    }
}

} // verus!
