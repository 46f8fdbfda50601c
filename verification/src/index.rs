//! The hierarchical aggregator: a sparse mapping from hexagonal cells to
//! value bit patterns whose keys are pairwise disjoint footprints, built
//! by inserting records and merging every complete group of 7 sibling
//! cells into its parent, down to (but never past) a target resolution.

use vstd::prelude::*;

use crate::cell::{
    canon_spec, cell_child, cell_parent, cell_res, cells_related, check_cell,
    child_spec, digit_of, digits_in_range, is_cell_index, is_strict_ancestor, lemma_ancestor_trans,
    lemma_child_valid, lemma_descendant_step, lemma_parent_fields, lemma_parent_valid,
    lemma_res_bound, parent_spec, res_of, valid_cell,
};
use crate::codec::{encode_stream, stream_bytes, SpatialRecord, StreamError};

verus! {

/// How a complete sibling group is reduced to one value for the parent
/// cell. The engine decides *when* a merge happens (all 7 children
/// present and the parent not coarser than the target resolution); the
/// rule only combines the 7 child values.
pub trait CompactionRule: Sized {
    /// The merged value for candidate parent `cell`, given the 7 child
    /// values in digit order. Left unspecified by default; a verified
    /// rule says here what its reduction computes.
    open spec fn reduce_spec(&self, cell: u64, children: Seq<u32>) -> u32 {
        vstd::pervasive::arbitrary::<u32>()
    }

    /// Computes the merged value.
    fn reduce(&self, cell: u64, children: &Vec<u32>) -> (r: u32)
        requires
            children@.len() == 7,
        ensures
            r == self.reduce_spec(cell, children@),
    ;
}

/// The mapping held by a sequence of records, later entries overwriting
/// earlier ones at the same cell.
pub open spec fn map_of(s: Seq<SpatialRecord>) -> Map<u64, u32>
    decreases s.len(),
{
    if s.len() == 0 {
        Map::empty()
    } else {
        map_of(s.drop_last()).insert(s.last().cell, s.last().value)
    }
}

/// No two entries name the same cell.
pub open spec fn unique_cells(s: Seq<SpatialRecord>) -> bool {
    forall|i: int, j: int| 0 <= i < j < s.len() ==> s[i].cell != s[j].cell
}

/// A cell occurs in the sequence.
pub open spec fn seq_has_cell(s: Seq<SpatialRecord>, c: u64) -> bool {
    exists|i: int| 0 <= i < s.len() && s[i].cell == c
}

/// The domain of the held mapping is exactly the cells that occur.
pub proof fn lemma_map_of_dom(s: Seq<SpatialRecord>, c: u64)
    ensures
        map_of(s).dom().contains(c) <==> seq_has_cell(s, c),
    decreases s.len(),
{
    if s.len() > 0 {
        lemma_map_of_dom(s.drop_last(), c);
        if seq_has_cell(s.drop_last(), c) {
            let i = choose|i: int| 0 <= i < s.drop_last().len() && s.drop_last()[i].cell == c;
            assert(s[i].cell == c);
        }
        if s.last().cell == c {
            assert(s[s.len() - 1].cell == c);
        }
        if seq_has_cell(s, c) && s.last().cell != c {
            let i = choose|i: int| 0 <= i < s.len() && s[i].cell == c;
            assert(s.drop_last()[i].cell == c);
        }
    }
}

/// With unique cells, the held mapping reads back each entry's value.
pub proof fn lemma_map_of_value(s: Seq<SpatialRecord>, i: int)
    requires
        unique_cells(s),
        0 <= i < s.len(),
    ensures
        map_of(s).dom().contains(s[i].cell),
        map_of(s)[s[i].cell] == s[i].value,
    decreases s.len(),
{
    if i == s.len() - 1 {
    } else {
        assert(unique_cells(s.drop_last()));
        lemma_map_of_value(s.drop_last(), i);
        assert(s[i].cell != s.last().cell);
    }
}

/// Appending an entry inserts its pair into the held mapping.
pub proof fn lemma_map_of_push(s: Seq<SpatialRecord>, r: SpatialRecord)
    ensures
        map_of(s.push(r)) == map_of(s).insert(r.cell, r.value),
{
    assert(s.push(r).drop_last() =~= s);
}

/// Removing an entry removes exactly its cell from the held mapping.
pub proof fn lemma_map_of_remove(s: Seq<SpatialRecord>, i: int)
    requires
        unique_cells(s),
        0 <= i < s.len(),
    ensures
        map_of(s.remove(i)) == map_of(s).remove(s[i].cell),
    decreases s.len(),
{
    if i == s.len() - 1 {
        assert(s.remove(i) =~= s.drop_last());
        lemma_map_of_dom(s.drop_last(), s[i].cell);
        assert(!seq_has_cell(s.drop_last(), s[i].cell)) by {
            if seq_has_cell(s.drop_last(), s[i].cell) {
                let j = choose|j: int|
                    0 <= j < s.drop_last().len() && s.drop_last()[j].cell == s[i].cell;
                assert(s[j].cell == s[i].cell);
            }
        }
        assert(map_of(s.drop_last()) =~= map_of(s.drop_last()).remove(s[i].cell));
        assert(map_of(s).remove(s[i].cell) =~= map_of(s.drop_last()).remove(s[i].cell));
    } else {
        assert(unique_cells(s.drop_last()));
        lemma_map_of_remove(s.drop_last(), i);
        assert(s.remove(i).drop_last() =~= s.drop_last().remove(i));
        assert(s.remove(i).last() == s.last());
        assert(map_of(s.remove(i)) == map_of(s.drop_last().remove(i)).insert(
            s.last().cell,
            s.last().value,
        ));
        assert(s[i].cell != s.last().cell);
        assert(map_of(s.drop_last()).remove(s[i].cell).insert(s.last().cell, s.last().value)
            =~= map_of(s.drop_last()).insert(s.last().cell, s.last().value).remove(s[i].cell));
    }
}

/// Overwriting an entry in place updates its pair in the held mapping.
pub proof fn lemma_map_of_update(s: Seq<SpatialRecord>, i: int, r: SpatialRecord)
    requires
        unique_cells(s),
        0 <= i < s.len(),
        s[i].cell == r.cell,
    ensures
        map_of(s.update(i, r)) == map_of(s).insert(r.cell, r.value),
    decreases s.len(),
{
    if i == s.len() - 1 {
        assert(s.update(i, r).drop_last() =~= s.drop_last());
        assert(s.update(i, r).last() == r);
        assert(map_of(s).insert(r.cell, r.value) =~= map_of(s.drop_last()).insert(
            r.cell,
            r.value,
        ));
    } else {
        assert(unique_cells(s.drop_last()));
        lemma_map_of_update(s.drop_last(), i, r);
        assert(s.update(i, r).drop_last() =~= s.drop_last().update(i, r));
        assert(s.update(i, r).last() == s.last());
        assert(s[i].cell != s.last().cell);
        assert(map_of(s.drop_last()).insert(r.cell, r.value).insert(
            s.last().cell,
            s.last().value,
        ) =~= map_of(s.drop_last()).insert(s.last().cell, s.last().value).insert(
            r.cell,
            r.value,
        ));
    }
}

/// Some cell of the mapping strictly contains `c`'s footprint.
pub open spec fn has_strict_ancestor(m: Map<u64, u32>, c: u64) -> bool {
    exists|a: u64| m.dom().contains(a) && is_strict_ancestor(a, c)
}

/// The mapping without the strict descendants of `c`.
pub open spec fn strip_descendants(m: Map<u64, u32>, c: u64) -> Map<u64, u32> {
    Map::new(|k: u64| m.dom().contains(k) && !is_strict_ancestor(c, k), |k: u64| m[k])
}

/// All 7 children of `p` hold a value.
pub open spec fn group_complete(m: Map<u64, u32>, p: u64) -> bool {
    forall|d: int| 0 <= d < 7 ==> m.dom().contains(child_spec(p, d))
}

/// The 7 child values of `p`, in digit order.
pub open spec fn group_values(m: Map<u64, u32>, p: u64) -> Seq<u32> {
    Seq::new(7, |d: int| m[child_spec(p, d)])
}

/// The mapping without the 7 children of `p`.
pub open spec fn remove_children(m: Map<u64, u32>, p: u64) -> Map<u64, u32> {
    Map::new(
        |k: u64| m.dom().contains(k) && !(exists|d: int| 0 <= d < 7 && k == child_spec(p, d)),
        |k: u64| m[k],
    )
}

/// Bottom-up compaction from the just-updated cell `c`: while the
/// parent group is complete and not coarser than the target resolution,
/// the 7 children are replaced by the parent holding the rule's
/// reduction, and compaction continues from the parent.
pub open spec fn cascade<R: CompactionRule>(rule: R, target: u8, m: Map<u64, u32>, c: u64) -> Map<
    u64,
    u32,
>
    decreases res_of(c),
    via cascade_decreases::<R>
{
    if res_of(c) == 0 {
        m
    } else {
        let p = parent_spec(c, res_of(c) - 1);
        if res_of(c) - 1 >= target && group_complete(m, p) {
            cascade(
                rule,
                target,
                remove_children(m, p).insert(p, rule.reduce_spec(p, group_values(m, p))),
                p,
            )
        } else {
            m
        }
    }
}

#[via_fn]
proof fn cascade_decreases<R: CompactionRule>(rule: R, target: u8, m: Map<u64, u32>, c: u64) {
    lemma_res_bound(c);
    if res_of(c) > 0 {
        lemma_parent_fields(c, res_of(c) - 1);
    }
}

/// What one insertion does to the mapping: nothing under an existing
/// coarser entry; otherwise the strict descendants give way, the pair is
/// written at its own cell, and compaction runs bottom-up.
pub open spec fn insert_spec<R: CompactionRule>(
    rule: R,
    target: u8,
    m: Map<u64, u32>,
    c: u64,
    v: u32,
) -> Map<u64, u32> {
    if has_strict_ancestor(m, c) {
        m
    } else {
        cascade(rule, target, strip_descendants(m, c).insert(c, v), c)
    }
}


/// The invariant of the entry list: every cell valid and canonical, and
/// the footprints pairwise disjoint (hence cells pairwise distinct).
pub open spec fn entries_inv(s: Seq<SpatialRecord>) -> bool {
    &&& forall|i: int| 0 <= i < s.len() ==> valid_cell(#[trigger] s[i].cell)
    &&& forall|i: int, j: int|
        0 <= i < s.len() && 0 <= j < s.len() && i != j ==> !cells_related(
            #[trigger] s[i].cell,
            #[trigger] s[j].cell,
        )
}

/// Disjoint footprints name distinct cells.
pub proof fn lemma_inv_unique(s: Seq<SpatialRecord>)
    requires
        entries_inv(s),
    ensures
        unique_cells(s),
{
    assert forall|i: int, j: int| 0 <= i < j < s.len() implies s[i].cell != s[j].cell by {
        assert(!cells_related(s[i].cell, s[j].cell));
    }
}

/// Finds the position of a cell in the entry list.
fn find_cell(v: &Vec<SpatialRecord>, c: u64) -> (r: Option<usize>)
    ensures
        match r {
            Some(i) => 0 <= i < v@.len() && v@[i as int].cell == c,
            None => !seq_has_cell(v@, c),
        },
{
    let mut i: usize = 0;
    while i < v.len()
        invariant
            i <= v@.len(),
            forall|j: int| 0 <= j < i ==> v@[j].cell != c,
        decreases v@.len() - i,
    {
        if v[i].cell == c {
            return Some(i);
        }
        i = i + 1;
    }
    None
}

/// Writes a pair into the entry list, overwriting the entry at the same
/// cell if one exists.
fn upsert(v: &mut Vec<SpatialRecord>, c: u64, value: u32)
    requires
        entries_inv(old(v)@),
        valid_cell(c),
        forall|i: int|
            0 <= i < old(v)@.len() ==> old(v)@[i].cell == c || !cells_related(
                old(v)@[i].cell,
                c,
            ),
    ensures
        entries_inv(final(v)@),
        map_of(final(v)@) == map_of(old(v)@).insert(c, value),
{
    proof {
        lemma_inv_unique(v@);
    }
    let rec = SpatialRecord { cell: c, value };
    match find_cell(v, c) {
        Some(i) => {
            proof {
                lemma_map_of_update(v@, i as int, rec);
            }
            let ghost s0 = v@;
            let _ = v.remove(i);
            v.insert(i, rec);
            proof {
                assert(v@ =~= s0.update(i as int, rec));
                assert(entries_inv(v@)) by {
                    assert forall|a: int| 0 <= a < v@.len() implies valid_cell(
                        #[trigger] v@[a].cell,
                    ) by {
                        assert(v@[a].cell == s0[a].cell);
                    }
                    assert forall|a: int, b: int|
                        0 <= a < v@.len() && 0 <= b < v@.len() && a != b implies !cells_related(
                        #[trigger] v@[a].cell,
                        #[trigger] v@[b].cell,
                    ) by {
                        assert(v@[a].cell == s0[a].cell && v@[b].cell == s0[b].cell);
                    }
                }
            }
        },
        None => {
            proof {
                lemma_map_of_push(v@, rec);
            }
            v.push(rec);
            proof {
                let s1 = v@;
                assert(entries_inv(s1)) by {
                    assert forall|a: int, b: int|
                        0 <= a < s1.len() && 0 <= b < s1.len() && a != b implies !cells_related(
                        #[trigger] s1[a].cell,
                        #[trigger] s1[b].cell,
                    ) by {
                        if a < s1.len() - 1 && b < s1.len() - 1 {
                        } else if a == s1.len() - 1 {
                            assert(s1[b].cell != c);
                        } else {
                            assert(s1[a].cell != c);
                        }
                    }
                }
            }
        },
    }
}

/// Removes the entry at a cell, if present.
fn remove_cell(v: &mut Vec<SpatialRecord>, c: u64)
    requires
        entries_inv(old(v)@),
    ensures
        entries_inv(final(v)@),
        map_of(final(v)@) == map_of(old(v)@).remove(c),
{
    proof {
        lemma_inv_unique(v@);
    }
    match find_cell(v, c) {
        Some(i) => {
            proof {
                lemma_map_of_remove(v@, i as int);
            }
            let ghost s0 = v@;
            let _ = v.remove(i);
            proof {
                assert(entries_inv(v@)) by {
                    assert forall|a: int| 0 <= a < v@.len() implies valid_cell(
                        #[trigger] v@[a].cell,
                    ) by {
                        if a < i {
                            assert(v@[a] == s0[a]);
                        } else {
                            assert(v@[a] == s0[a + 1]);
                        }
                    }
                    assert forall|a: int, b: int|
                        0 <= a < v@.len() && 0 <= b < v@.len() && a != b implies !cells_related(
                        #[trigger] v@[a].cell,
                        #[trigger] v@[b].cell,
                    ) by {
                        let a0: int = if a < i { a } else { a + 1 };
                        let b0: int = if b < i { b } else { b + 1 };
                        assert(v@[a] == s0[a0] && v@[b] == s0[b0]);
                    }
                }
            }
        },
        None => {
            proof {
                lemma_map_of_dom(v@, c);
                assert(map_of(v@) =~= map_of(v@).remove(c));
            }
        },
    }
}

/// Drops every entry strictly inside `c`'s footprint.
fn remove_descendants(v: &mut Vec<SpatialRecord>, c: u64)
    requires
        entries_inv(old(v)@),
        valid_cell(c),
    ensures
        entries_inv(final(v)@),
        map_of(final(v)@) == strip_descendants(map_of(old(v)@), c),
{
    proof {
        lemma_inv_unique(v@);
    }
    let res = cell_res(c);
    let mut out: Vec<SpatialRecord> = Vec::new();
    let mut i: usize = 0;
    let ghost s = v@;
    proof {
        assert(map_of(out@) =~= strip_descendants(map_of(s.subrange(0, 0)), c));
    }
    while i < v.len()
        invariant
            i <= s.len(),
            v@ == s,
            entries_inv(s),
            unique_cells(s),
            valid_cell(c),
            res == res_of(c),
            map_of(out@) == strip_descendants(map_of(s.subrange(0, i as int)), c),
            forall|j: int| #![trigger out@[j]]
                0 <= j < out@.len() ==> exists|t: int| 0 <= t < i && out@[j] == #[trigger] s[t],
            entries_inv(out@),
        decreases s.len() - i,
    {
        let e = v[i];
        let ghost prefix = s.subrange(0, i as int);
        proof {
            assert(s.subrange(0, i as int + 1) =~= prefix.push(e));
            lemma_map_of_push(prefix, e);
            lemma_map_of_dom(prefix, e.cell);
            assert(!seq_has_cell(prefix, e.cell)) by {
                if seq_has_cell(prefix, e.cell) {
                    let t = choose|t: int| 0 <= t < prefix.len() && prefix[t].cell == e.cell;
                    assert(s[t].cell == s[i as int].cell);
                    assert(!cells_related(s[t].cell, s[i as int].cell));
                }
            }
        }
        let keep = if cell_res(e.cell) > res {
            let pr = cell_parent(e.cell, res);
            !(pr == c)
        } else {
            true
        };
        proof {
            assert(keep == !is_strict_ancestor(c, e.cell));
        }
        if keep {
            proof {
                lemma_map_of_push(out@, e);
                assert(map_of(out@).insert(e.cell, e.value) =~= strip_descendants(
                    map_of(prefix).insert(e.cell, e.value),
                    c,
                ));
            }
            let ghost out0 = out@;
            out.push(e);
            proof {
                assert forall|j: int| #![trigger out@[j]] 0 <= j < out@.len() implies exists|t: int|
                    0 <= t < i + 1 && out@[j] == #[trigger] s[t] by {
                    if j < out0.len() {
                        let t = choose|t: int| 0 <= t < i && out0[j] == s[t];
                        assert(out@[j] == s[t]);
                    } else {
                        assert(out@[j] == s[i as int]);
                    }
                }
                assert(entries_inv(out@)) by {
                    assert forall|a: int| 0 <= a < out@.len() implies valid_cell(
                        #[trigger] out@[a].cell,
                    ) by {
                        let t = choose|t: int| 0 <= t < i + 1 && out@[a] == s[t];
                        assert(valid_cell(s[t].cell));
                    }
                    assert forall|a: int, b: int|
                        0 <= a < out@.len() && 0 <= b < out@.len() && a != b implies !cells_related(
                        #[trigger] out@[a].cell,
                        #[trigger] out@[b].cell,
                    ) by {
                        let ta = choose|t: int| 0 <= t < i + 1 && out@[a] == s[t];
                        let tb = choose|t: int| 0 <= t < i + 1 && out@[b] == s[t];
                        if ta == tb {
                            assert(out@[a] == out@[b]);
                            let sm: int = if a < b { a } else { b };
                            let lg: int = if a < b { b } else { a };
                            assert(map_of(out@).dom().contains(out@[a].cell));
                            lemma_inv_unique(out@.subrange(0, lg + 1));
                            assert(false) by {
                                assert(unique_cells(out@.subrange(0, lg + 1)));
                                assert(out@.subrange(0, lg + 1)[sm] == out@[sm]);
                                assert(out@.subrange(0, lg + 1)[lg] == out@[lg]);
                            }
                        } else {
                            assert(!cells_related(s[ta].cell, s[tb].cell));
                        }
                    }
                }
            }
        } else {
            proof {
                assert(map_of(out@) =~= strip_descendants(
                    map_of(prefix).insert(e.cell, e.value),
                    c,
                ));
            }
        }
        i = i + 1;
    }
    proof {
        assert(s.subrange(0, s.len() as int) =~= s);
    }
    *v = out;
}


/// Every cell of the held mapping is a valid cell.
pub proof fn lemma_dom_valid(s: Seq<SpatialRecord>, k: u64)
    requires
        entries_inv(s),
        map_of(s).dom().contains(k),
    ensures
        valid_cell(k),
{
    lemma_map_of_dom(s, k);
    let i = choose|i: int| 0 <= i < s.len() && s[i].cell == k;
    assert(valid_cell(s[i].cell));
}

/// Two distinct cells of the held mapping are never related.
pub proof fn lemma_dom_unrelated(s: Seq<SpatialRecord>, k1: u64, k2: u64)
    requires
        entries_inv(s),
        map_of(s).dom().contains(k1),
        map_of(s).dom().contains(k2),
        k1 != k2,
    ensures
        !cells_related(k1, k2),
{
    lemma_map_of_dom(s, k1);
    lemma_map_of_dom(s, k2);
    let i = choose|i: int| 0 <= i < s.len() && s[i].cell == k1;
    let j = choose|j: int| 0 <= j < s.len() && s[j].cell == k2;
    assert(!cells_related(s[i].cell, s[j].cell));
}

/// Decides whether some entry strictly contains `c`'s footprint.
fn find_ancestor(v: &Vec<SpatialRecord>, c: u64) -> (r: bool)
    requires
        entries_inv(v@),
        valid_cell(c),
    ensures
        r == has_strict_ancestor(map_of(v@), c),
{
    let res = cell_res(c);
    let mut rr: u8 = 0;
    while rr < res
        invariant
            rr <= res,
            res <= 15,
            res == res_of(c),
            valid_cell(c),
            entries_inv(v@),
            forall|t: int| 0 <= t < rr ==> !map_of(v@).dom().contains(#[trigger] parent_spec(c, t)),
        decreases res - rr,
    {
        let p = cell_parent(c, rr);
        match find_cell(v, p) {
            Some(i) => {
                proof {
                    lemma_inv_unique(v@);
                    lemma_map_of_value(v@, i as int);
                    lemma_parent_valid(c, rr as int);
                    assert(map_of(v@).dom().contains(parent_spec(c, rr as int)));
                }
                return true;
            },
            None => {
                proof {
                    lemma_map_of_dom(v@, p);
                }
            },
        }
        rr = rr + 1;
    }
    proof {
        assert(!has_strict_ancestor(map_of(v@), c)) by {
            if has_strict_ancestor(map_of(v@), c) {
                let a = choose|a: u64| map_of(v@).dom().contains(a) && is_strict_ancestor(a, c);
                assert(!map_of(v@).dom().contains(parent_spec(c, res_of(a) as int)));
            }
        }
    }
    false
}

/// Collects the 7 child values of `p` in digit order, or reports the
/// group incomplete.
fn gather_children(v: &Vec<SpatialRecord>, p: u64) -> (r: Option<Vec<u32>>)
    requires
        entries_inv(v@),
        valid_cell(p),
        res_of(p) <= 14,
    ensures
        match r {
            Some(vals) => group_complete(map_of(v@), p) && vals@ == group_values(map_of(v@), p)
                && vals@.len() == 7,
            None => !group_complete(map_of(v@), p),
        },
{
    let mut vals: Vec<u32> = Vec::new();
    let mut d: u8 = 0;
    while d < 7
        invariant
            d <= 7,
            entries_inv(v@),
            valid_cell(p),
            res_of(p) <= 14,
            vals@.len() == d,
            forall|j: int|
                0 <= j < d ==> map_of(v@).dom().contains(#[trigger] child_spec(p, j)) && vals@[j]
                    == map_of(v@)[child_spec(p, j)],
        decreases 7 - d,
    {
        let ch = cell_child(p, d);
        match find_cell(v, ch) {
            Some(i) => {
                proof {
                    lemma_inv_unique(v@);
                    lemma_map_of_value(v@, i as int);
                }
                vals.push(v[i].value);
            },
            None => {
                proof {
                    lemma_map_of_dom(v@, ch);
                }
                return None;
            },
        }
        d = d + 1;
    }
    proof {
        assert(vals@ =~= group_values(map_of(v@), p));
    }
    Some(vals)
}

/// The mapping without the children of `p` at digit positions below `d`.
pub open spec fn remove_upto(m: Map<u64, u32>, p: u64, d: int) -> Map<u64, u32> {
    Map::new(
        |k: u64| m.dom().contains(k) && !(exists|j: int| 0 <= j < d && k == child_spec(p, j)),
        |k: u64| m[k],
    )
}

/// Removes the 7 children of `p` from the entry list.
fn remove_group(v: &mut Vec<SpatialRecord>, p: u64)
    requires
        entries_inv(old(v)@),
        valid_cell(p),
        res_of(p) <= 14,
    ensures
        entries_inv(final(v)@),
        map_of(final(v)@) == remove_children(map_of(old(v)@), p),
{
    let ghost m0 = map_of(v@);
    proof {
        assert(map_of(v@) =~= remove_upto(m0, p, 0));
    }
    let mut d: u8 = 0;
    while d < 7
        invariant
            d <= 7,
            entries_inv(v@),
            valid_cell(p),
            res_of(p) <= 14,
            map_of(v@) == remove_upto(m0, p, d as int),
        decreases 7 - d,
    {
        let ch = cell_child(p, d);
        remove_cell(v, ch);
        proof {
            assert forall|k: u64|
                remove_upto(m0, p, d as int).remove(ch).dom().contains(k)
                    == remove_upto(m0, p, d + 1).dom().contains(k) by {
                if remove_upto(m0, p, d as int).remove(ch).dom().contains(k) {
                    if exists|j: int| 0 <= j < d + 1 && k == child_spec(p, j) {
                        let j = choose|j: int| 0 <= j < d + 1 && k == child_spec(p, j);
                        assert(0 <= j < d && k == child_spec(p, j));
                        assert(false);
                    }
                }
                if remove_upto(m0, p, d + 1).dom().contains(k) {
                    assert(!(exists|j: int| 0 <= j < d && k == child_spec(p, j))) by {
                        if exists|j: int| 0 <= j < d && k == child_spec(p, j) {
                            let j = choose|j: int| 0 <= j < d && k == child_spec(p, j);
                            assert(0 <= j < d + 1 && k == child_spec(p, j));
                        }
                    }
                    assert(k != child_spec(p, d as int));
                }
            }
            assert(remove_upto(m0, p, d as int).remove(ch) =~= remove_upto(m0, p, d + 1));
        }
        d = d + 1;
    }
    proof {
        assert(remove_upto(m0, p, 7) =~= remove_children(m0, p));
    }
}

/// The hierarchical aggregator: a mapping from cells to value bit
/// patterns with pairwise disjoint footprints, compacted bottom-up to a
/// target resolution by a pluggable rule.
pub struct HexIndex<R: CompactionRule> {
    entries: Vec<SpatialRecord>,
    target: u8,
    rule: R,
}

impl<R: CompactionRule> HexIndex<R> {
    /// The mapping held by the index.
    pub closed spec fn as_map(&self) -> Map<u64, u32> {
        map_of(self.entries@)
    }

    /// The target resolution: the coarsest level compaction may create.
    pub closed spec fn target_spec(&self) -> u8 {
        self.target
    }

    /// The compaction rule.
    pub closed spec fn rule_spec(&self) -> R {
        self.rule
    }

    /// Well-formedness: a bounded target, and entries that are valid
    /// canonical cells with pairwise disjoint footprints.
    pub closed spec fn wf(&self) -> bool {
        self.target <= 15 && entries_inv(self.entries@)
    }

    /// An empty index for the given target resolution and rule.
    pub fn new(target: u8, rule: R) -> (s: Self)
        requires
            target <= 15,
        ensures
            s.wf(),
            s.as_map() == Map::<u64, u32>::empty(),
            s.target_spec() == target,
            s.rule_spec() == rule,
    {
        let s = HexIndex { entries: Vec::new(), target, rule };
        s
    }

    /// The value held exactly at a cell, if any.
    pub fn get(&self, cell: u64) -> (r: Option<u32>)
        requires
            self.wf(),
        ensures
            match r {
                Some(v) => self.as_map().dom().contains(cell) && v == self.as_map()[cell],
                None => !self.as_map().dom().contains(cell),
            },
    {
        proof {
            lemma_inv_unique(self.entries@);
        }
        match find_cell(&self.entries, cell) {
            Some(i) => {
                proof {
                    lemma_map_of_value(self.entries@, i as int);
                }
                Some(self.entries[i].value)
            },
            None => {
                proof {
                    lemma_map_of_dom(self.entries@, cell);
                }
                None
            },
        }
    }

    /// Inserts one record at its own cell and compacts bottom-up: a
    /// record under an existing coarser entry is absorbed (no change); a
    /// record at a held cell overwrites it; a record above finer entries
    /// replaces them; then every complete sibling group at or below the
    /// target resolution is merged into its parent, repeatedly.
    pub fn insert(&mut self, cell: u64, value: u32)
        requires
            old(self).wf(),
            valid_cell(cell),
        ensures
            final(self).wf(),
            final(self).target_spec() == old(self).target_spec(),
            final(self).rule_spec() == old(self).rule_spec(),
            final(self).as_map() == insert_spec(
                old(self).rule_spec(),
                old(self).target_spec(),
                old(self).as_map(),
                cell,
                value,
            ),
    {
        let ghost m0 = map_of(self.entries@);
        let ghost tgt = self.target;
        let ghost rule = self.rule;
        if find_ancestor(&self.entries, cell) {
            return ;
        }
        remove_descendants(&mut self.entries, cell);
        proof {
            lemma_inv_unique(self.entries@);
            assert forall|i: int| 0 <= i < self.entries@.len() implies self.entries@[i].cell
                == cell || !cells_related(self.entries@[i].cell, cell) by {
                let k = self.entries@[i].cell;
                lemma_map_of_value(self.entries@, i);
                assert(strip_descendants(m0, cell).dom().contains(k));
                if k != cell && cells_related(k, cell) {
                    if is_strict_ancestor(k, cell) {
                        assert(has_strict_ancestor(m0, cell));
                    }
                }
            }
        }
        upsert(&mut self.entries, cell, value);
        let ghost m1 = map_of(self.entries@);
        let ghost mgoal = insert_spec(rule, tgt, m0, cell, value);
        proof {
            assert(mgoal == cascade(rule, tgt, m1, cell));
        }
        let mut cur = cell;
        loop
            invariant
                self.target == tgt,
                self.rule == rule,
                tgt <= 15,
                entries_inv(self.entries@),
                valid_cell(cur),
                cascade(rule, tgt, map_of(self.entries@), cur) == mgoal,
            ensures
                self.target == tgt,
                self.rule == rule,
                entries_inv(self.entries@),
                map_of(self.entries@) == mgoal,
            decreases res_of(cur),
        {
            let rcur = cell_res(cur);
            if rcur == 0 {
                break ;
            }
            let rp = rcur - 1;
            if rp < self.target {
                break ;
            }
            let p = cell_parent(cur, rp);
            proof {
                lemma_parent_valid(cur, rp as int);
            }
            match gather_children(&self.entries, p) {
                None => {
                    break ;
                },
                Some(vals) => {
                    let ghost epre = self.entries@;
                    let ghost mpre = map_of(self.entries@);
                    remove_group(&mut self.entries, p);
                    let newv = self.rule.reduce(p, &vals);
                    proof {
                        lemma_inv_unique(self.entries@);
                        assert forall|i: int| 0 <= i < self.entries@.len() implies
                            self.entries@[i].cell == p || !cells_related(
                            self.entries@[i].cell,
                            p,
                        ) by {
                            let k = self.entries@[i].cell;
                            lemma_map_of_value(self.entries@, i);
                            assert(remove_children(mpre, p).dom().contains(k));
                            assert(mpre.dom().contains(k));
                            if k != p && cells_related(k, p) {
                                lemma_child_valid(p, 0);
                                let c0 = child_spec(p, 0);
                                assert(mpre.dom().contains(c0));
                                if is_strict_ancestor(k, p) {
                                    lemma_ancestor_trans(k, p, c0);
                                    assert(k != c0);
                                    lemma_dom_unrelated(epre, k, c0);
                                    assert(false);
                                } else {
                                    assert(is_strict_ancestor(p, k));
                                    lemma_dom_valid(epre, k);
                                    lemma_descendant_step(p, k);
                                    let dd = digit_of(k, res_of(p) + 1);
                                    assert(mpre.dom().contains(child_spec(p, dd as int)));
                                    if res_of(k) == res_of(p) + 1 {
                                        assert(k == child_spec(p, dd as int));
                                        assert(false);
                                    } else {
                                        let cd = child_spec(p, dd as int);
                                        assert(is_strict_ancestor(cd, k));
                                        lemma_child_valid(p, dd as int);
                                        assert(cd != k);
                                        lemma_dom_unrelated(epre, cd, k);
                                        assert(false);
                                    }
                                }
                            }
                        }
                    }
                    upsert(&mut self.entries, p, newv);
                    proof {
                        assert(map_of(self.entries@) == remove_children(mpre, p).insert(
                            p,
                            rule.reduce_spec(p, group_values(mpre, p)),
                        ));
                        assert(cascade(rule, tgt, mpre, cur) == cascade(
                            rule,
                            tgt,
                            map_of(self.entries@),
                            p,
                        ));
                    }
                    cur = p;
                },
            }
        }
    }
}


/// A raw decoded word is accepted when it denotes a cell: well-formed
/// frame fields and every used digit an actual child position.
pub open spec fn acceptable_cell(raw: u64) -> bool {
    is_cell_index(raw) && digits_in_range(raw)
}

/// Running one record sequence into the mapping: each acceptable record
/// is inserted in canonical form, in order; the first unacceptable
/// record aborts the run.
pub open spec fn run_records<R: CompactionRule>(
    rule: R,
    target: u8,
    m: Map<u64, u32>,
    rs: Seq<SpatialRecord>,
) -> Result<Map<u64, u32>, StreamError>
    decreases rs.len(),
{
    if rs.len() == 0 {
        Ok(m)
    } else if !acceptable_cell(rs[0].cell) {
        Err(StreamError::InvalidCellId(rs[0].cell))
    } else {
        run_records(
            rule,
            target,
            insert_spec(rule, target, m, canon_spec(rs[0].cell), rs[0].value),
            rs.subrange(1, rs.len() as int),
        )
    }
}

/// The accepted prefix of a record sequence, inserted in order: where
/// the run aborts, this is the state it aborts in.
pub open spec fn run_partial<R: CompactionRule>(
    rule: R,
    target: u8,
    m: Map<u64, u32>,
    rs: Seq<SpatialRecord>,
) -> Map<u64, u32>
    decreases rs.len(),
{
    if rs.len() == 0 || !acceptable_cell(rs[0].cell) {
        m
    } else {
        run_partial(
            rule,
            target,
            insert_spec(rule, target, m, canon_spec(rs[0].cell), rs[0].value),
            rs.subrange(1, rs.len() as int),
        )
    }
}

/// Running one byte stream: a stream that is not a whole number of
/// records is truncated; otherwise its records run in order.
pub open spec fn run_stream<R: CompactionRule>(
    rule: R,
    target: u8,
    m: Map<u64, u32>,
    bytes: Seq<u8>,
) -> Result<Map<u64, u32>, StreamError> {
    if bytes.len() % 12 != 0 {
        Err(StreamError::TruncatedRecord)
    } else {
        run_records(rule, target, m, crate::codec::parse_stream(bytes))
    }
}

/// Running several byte streams in order; the first failing stream
/// aborts the whole run.
pub open spec fn run_streams<R: CompactionRule>(
    rule: R,
    target: u8,
    m: Map<u64, u32>,
    streams: Seq<Seq<u8>>,
) -> Result<Map<u64, u32>, StreamError>
    decreases streams.len(),
{
    if streams.len() == 0 {
        Ok(m)
    } else {
        match run_stream(rule, target, m, streams[0]) {
            Err(e) => Err(e),
            Ok(m2) => run_streams(rule, target, m2, streams.subrange(1, streams.len() as int)),
        }
    }
}

/// The byte streams a vector of buffers holds.
pub open spec fn views_of(streams: Seq<Vec<u8>>) -> Seq<Seq<u8>> {
    Seq::new(streams.len(), |i: int| streams[i]@)
}

impl<R: CompactionRule> HexIndex<R> {
    /// Reads one record stream into the index, record by record: a
    /// stream that is not a whole number of records is rejected as
    /// truncated before anything is read; a record whose 64-bit word is
    /// not a valid cell identifier stops the run there with an invalid
    /// identifier error; every acceptable record before the failure
    /// point has been inserted.
    pub fn ingest(&mut self, bytes: &Vec<u8>) -> (r: Result<(), StreamError>)
        requires
            old(self).wf(),
        ensures
            final(self).wf(),
            final(self).target_spec() == old(self).target_spec(),
            final(self).rule_spec() == old(self).rule_spec(),
            match r {
                Ok(()) => run_stream(
                    old(self).rule_spec(),
                    old(self).target_spec(),
                    old(self).as_map(),
                    bytes@,
                ) == Ok::<Map<u64, u32>, StreamError>(final(self).as_map()),
                Err(e) => run_stream(
                    old(self).rule_spec(),
                    old(self).target_spec(),
                    old(self).as_map(),
                    bytes@,
                ) == Err::<Map<u64, u32>, StreamError>(e),
            },
            r == Err::<(), StreamError>(StreamError::TruncatedRecord) ==> final(self).as_map()
                == old(self).as_map(),
            bytes@.len() % 12 == 0 ==> final(self).as_map() == run_partial(
                old(self).rule_spec(),
                old(self).target_spec(),
                old(self).as_map(),
                crate::codec::parse_stream(bytes@),
            ),
    {
        let ghost m0 = self.as_map();
        let ghost tgt = self.target;
        let ghost rule = self.rule;
        let records = match crate::codec::decode_stream(bytes) {
            Ok(v) => v,
            Err(e) => {
                return Err(e);
            },
        };
        let ghost recs = records@;
        let mut i: usize = 0;
        proof {
            assert(recs.subrange(0, recs.len() as int) =~= recs);
        }
        while i < records.len()
            invariant
                i <= recs.len(),
                records@ == recs,
                self.wf(),
                self.target == tgt,
                self.rule == rule,
                tgt == old(self).target_spec(),
                rule == old(self).rule_spec(),
                m0 == old(self).as_map(),
                bytes@.len() % 12 == 0,
                recs == crate::codec::parse_stream(bytes@),
                run_records(rule, tgt, self.as_map(), recs.subrange(i as int, recs.len() as int))
                    == run_records(rule, tgt, m0, recs),
                run_partial(rule, tgt, self.as_map(), recs.subrange(i as int, recs.len() as int))
                    == run_partial(rule, tgt, m0, recs),
            decreases recs.len() - i,
        {
            let rec = records[i];
            let ghost rest = recs.subrange(i as int, recs.len() as int);
            proof {
                assert(rest[0] == rec);
                assert(rest.subrange(1, rest.len() as int) =~= recs.subrange(
                    i as int + 1,
                    recs.len() as int,
                ));
            }
            if !check_cell(rec.cell) {
                return Err(StreamError::InvalidCellId(rec.cell));
            }
            let c = crate::cell::canonicalize(rec.cell);
            proof {
                lemma_res_bound(rec.cell);
                lemma_parent_valid(rec.cell, res_of(rec.cell) as int);
            }
            self.insert(c, rec.value);
            i = i + 1;
        }
        proof {
            assert(recs.subrange(recs.len() as int, recs.len() as int) =~= Seq::<
                SpatialRecord,
            >::empty());
        }
        Ok(())
    }
}

/// Builds one index from zero or more record streams: every stream in
/// order, every record inserted at its own cell and compacted, exactly
/// as the run specification says. Succeeds if and only if every stream
/// is a whole number of records, each denoting a valid cell identifier.
pub fn combine_streams<R: CompactionRule>(streams: &Vec<Vec<u8>>, target: u8, rule: R) -> (r:
    Result<HexIndex<R>, StreamError>)
    requires
        target <= 15,
    ensures
        match r {
            Ok(idx) => idx.wf() && idx.target_spec() == target && idx.rule_spec() == rule
                && run_streams(rule, target, Map::<u64, u32>::empty(), views_of(streams@))
                == Ok::<Map<u64, u32>, StreamError>(idx.as_map()),
            Err(e) => run_streams(rule, target, Map::<u64, u32>::empty(), views_of(streams@))
                == Err::<Map<u64, u32>, StreamError>(e),
        },
{
    let mut idx = HexIndex::new(target, rule);
    let mut i: usize = 0;
    let ghost views = views_of(streams@);
    proof {
        assert(views.subrange(0, views.len() as int) =~= views);
    }
    while i < streams.len()
        invariant
            i <= streams@.len(),
            views == views_of(streams@),
            views.len() == streams@.len(),
            idx.wf(),
            idx.target_spec() == target,
            idx.rule_spec() == rule,
            run_streams(rule, target, idx.as_map(), views.subrange(i as int, views.len() as int))
                == run_streams(rule, target, Map::<u64, u32>::empty(), views),
        decreases streams@.len() - i,
    {
        let ghost rest = views.subrange(i as int, views.len() as int);
        proof {
            assert(rest[0] == streams@[i as int]@);
            assert(rest.subrange(1, rest.len() as int) =~= views.subrange(
                i as int + 1,
                views.len() as int,
            ));
        }
        match idx.ingest(&streams[i]) {
            Ok(()) => {},
            Err(e) => {
                return Err(e);
            },
        }
        i = i + 1;
    }
    proof {
        assert(views.subrange(views.len() as int, views.len() as int) =~= Seq::<Seq<u8>>::empty());
    }
    Ok(idx)
}


/// Entries in strictly ascending cell order.
pub open spec fn sorted_strict(s: Seq<SpatialRecord>) -> bool {
    forall|i: int, j: int| 0 <= i < j < s.len() ==> s[i].cell < s[j].cell
}

/// Strict order leaves no room for a repeated cell.
pub proof fn lemma_sorted_unique(s: Seq<SpatialRecord>)
    requires
        sorted_strict(s),
    ensures
        unique_cells(s),
{
    assert forall|i: int, j: int| 0 <= i < j < s.len() implies s[i].cell != s[j].cell by {
        assert(s[i].cell < s[j].cell);
    }
}

/// Inserting a fresh entry anywhere inserts its pair into the mapping.
pub proof fn lemma_map_of_insert_at(s: Seq<SpatialRecord>, j: int, r: SpatialRecord)
    requires
        0 <= j <= s.len(),
        !seq_has_cell(s, r.cell),
    ensures
        map_of(s.insert(j, r)) == map_of(s).insert(r.cell, r.value),
    decreases s.len(),
{
    if j == s.len() {
        assert(s.insert(j, r) =~= s.push(r));
        lemma_map_of_push(s, r);
    } else {
        let t = s.insert(j, r);
        assert(t.drop_last() =~= s.drop_last().insert(j, r));
        assert(t.last() == s.last());
        assert(!seq_has_cell(s.drop_last(), r.cell)) by {
            if seq_has_cell(s.drop_last(), r.cell) {
                let w = choose|w: int|
                    0 <= w < s.drop_last().len() && s.drop_last()[w].cell == r.cell;
                assert(s[w].cell == r.cell);
            }
        }
        lemma_map_of_insert_at(s.drop_last(), j, r);
        assert(s[s.len() - 1].cell != r.cell);
        assert(map_of(s.drop_last()).insert(r.cell, r.value).insert(
            s.last().cell,
            s.last().value,
        ) =~= map_of(s.drop_last()).insert(s.last().cell, s.last().value).insert(
            r.cell,
            r.value,
        ));
    }
}

/// Two sorted entry lists holding the same mapping are the same list:
/// the sorted form of a mapping is unique.
pub proof fn lemma_sorted_same_map(s1: Seq<SpatialRecord>, s2: Seq<SpatialRecord>)
    requires
        sorted_strict(s1),
        sorted_strict(s2),
        map_of(s1) == map_of(s2),
    ensures
        s1 == s2,
    decreases s1.len(),
{
    lemma_sorted_unique(s1);
    lemma_sorted_unique(s2);
    if s1.len() == 0 {
        if s2.len() > 0 {
            lemma_map_of_value(s2, s2.len() - 1);
        }
        assert(s1 =~= s2);
    } else if s2.len() == 0 {
        lemma_map_of_value(s1, s1.len() - 1);
    } else {
        let c1 = s1.last().cell;
        let c2 = s2.last().cell;
        lemma_map_of_value(s1, s1.len() - 1);
        lemma_map_of_value(s2, s2.len() - 1);
        lemma_map_of_dom(s2, c1);
        assert(c1 <= c2) by {
            let i = choose|i: int| 0 <= i < s2.len() && s2[i].cell == c1;
            if i < s2.len() - 1 {
                assert(s2[i].cell < s2[s2.len() - 1].cell);
            }
        }
        lemma_map_of_dom(s1, c2);
        assert(c2 <= c1) by {
            let i = choose|i: int| 0 <= i < s1.len() && s1[i].cell == c2;
            if i < s1.len() - 1 {
                assert(s1[i].cell < s1[s1.len() - 1].cell);
            }
        }
        assert(c1 == c2);
        assert(s1.last().value == s2.last().value) by {
            assert(map_of(s1)[c1] == s1.last().value);
            assert(map_of(s2)[c1] == s2.last().value);
        }
        assert(!seq_has_cell(s1.drop_last(), c1)) by {
            if seq_has_cell(s1.drop_last(), c1) {
                let w = choose|w: int| 0 <= w < s1.drop_last().len() && s1.drop_last()[w].cell == c1;
                assert(s1[w].cell == s1[s1.len() - 1].cell);
            }
        }
        assert(!seq_has_cell(s2.drop_last(), c1)) by {
            if seq_has_cell(s2.drop_last(), c1) {
                let w = choose|w: int| 0 <= w < s2.drop_last().len() && s2.drop_last()[w].cell == c1;
                assert(s2[w].cell == s2[s2.len() - 1].cell);
            }
        }
        lemma_map_of_dom(s1.drop_last(), c1);
        lemma_map_of_dom(s2.drop_last(), c1);
        assert(map_of(s1.drop_last()) =~= map_of(s1).remove(c1));
        assert(map_of(s2.drop_last()) =~= map_of(s2).remove(c1));
        assert(sorted_strict(s1.drop_last()));
        assert(sorted_strict(s2.drop_last()));
        lemma_sorted_same_map(s1.drop_last(), s2.drop_last());
        assert(s1 =~= s2) by {
            assert(s1.len() == s2.len());
            assert forall|i: int| 0 <= i < s1.len() implies s1[i] == s2[i] by {
                if i < s1.len() - 1 {
                    assert(s1.drop_last()[i] == s2.drop_last()[i]);
                }
            }
        }
    }
}

/// The unique sorted entry list of a mapping that has one.
pub open spec fn sorted_entries_of(m: Map<u64, u32>) -> Seq<SpatialRecord> {
    choose|s: Seq<SpatialRecord>| sorted_strict(s) && map_of(s) == m
}

impl<R: CompactionRule> HexIndex<R> {
    /// The held pairs in strictly ascending cell order: the canonical
    /// serialization order, independent of how the index was built.
    pub fn records(&self) -> (out: Vec<SpatialRecord>)
        requires
            self.wf(),
        ensures
            sorted_strict(out@),
            map_of(out@) == self.as_map(),
            out@ == sorted_entries_of(self.as_map()),
    {
        proof {
            lemma_inv_unique(self.entries@);
        }
        let ghost s = self.entries@;
        let mut out: Vec<SpatialRecord> = Vec::new();
        let mut i: usize = 0;
        proof {
            assert(map_of(out@) =~= map_of(s.subrange(0, 0)));
        }
        while i < self.entries.len()
            invariant
                i <= s.len(),
                self.entries@ == s,
                unique_cells(s),
                sorted_strict(out@),
                map_of(out@) == map_of(s.subrange(0, i as int)),
            decreases s.len() - i,
        {
            let e = self.entries[i];
            proof {
                lemma_map_of_dom(s.subrange(0, i as int), e.cell);
                assert(!seq_has_cell(s.subrange(0, i as int), e.cell)) by {
                    if seq_has_cell(s.subrange(0, i as int), e.cell) {
                        let t = choose|t: int|
                            0 <= t < i && s.subrange(0, i as int)[t].cell == e.cell;
                        assert(s[t].cell == s[i as int].cell);
                    }
                }
                lemma_map_of_dom(out@, e.cell);
                assert(!seq_has_cell(out@, e.cell));
            }
            let mut pos: usize = 0;
            while pos < out.len() && out[pos].cell < e.cell
                invariant
                    pos <= out@.len(),
                    sorted_strict(out@),
                    forall|t: int| 0 <= t < pos ==> out@[t].cell < e.cell,
                decreases out@.len() - pos,
            {
                pos = pos + 1;
            }
            proof {
                if (pos as int) < out@.len() {
                    assert(out@[pos as int].cell != e.cell);
                    assert(out@[pos as int].cell > e.cell);
                }
                lemma_map_of_insert_at(out@, pos as int, e);
            }
            let ghost out0 = out@;
            out.insert(pos, e);
            proof {
                assert(sorted_strict(out@)) by {
                    assert forall|a: int, b: int| 0 <= a < b < out@.len() implies out@[a].cell
                        < out@[b].cell by {
                        if b < pos {
                        } else if a < pos && b == pos {
                            assert(out@[a] == out0[a]);
                        } else if a < pos {
                            assert(out@[a] == out0[a] && out@[b] == out0[b - 1]);
                            assert(out0[b - 1].cell >= out0[pos as int].cell || b - 1 == pos);
                        } else if a == pos {
                            assert(out@[b] == out0[b - 1]);
                            assert(out0[b - 1].cell >= out0[pos as int].cell);
                        } else {
                            assert(out@[a] == out0[a - 1] && out@[b] == out0[b - 1]);
                        }
                    }
                }
                assert(s.subrange(0, i as int).push(e) =~= s.subrange(0, i as int + 1));
                lemma_map_of_push(s.subrange(0, i as int), e);
            }
            i = i + 1;
        }
        proof {
            assert(s.subrange(0, s.len() as int) =~= s);
            let w = sorted_entries_of(self.as_map());
            assert(sorted_strict(out@) && map_of(out@) == self.as_map());
            assert(sorted_strict(w) && map_of(w) == self.as_map()) by {
                assert(exists|q: Seq<SpatialRecord>|
                    sorted_strict(q) && #[trigger] map_of(q) == self.as_map()) by {
                    assert(sorted_strict(out@) && map_of(out@) == self.as_map());
                }
            }
            lemma_sorted_same_map(out@, w);
        }
        out
    }

    /// Serializes the whole index: the sorted records back to back. The
    /// result depends only on the held mapping, not on how it was built.
    pub fn to_bytes(&self) -> (out: Vec<u8>)
        requires
            self.wf(),
        ensures
            out@ == stream_bytes(sorted_entries_of(self.as_map())),
    {
        let recs = self.records();
        encode_stream(&recs)
    }
}


/// Compaction completeness: inserting the last of the 7 children of a
/// parent at or below the target resolution, when the index holds
/// exactly the other 6, leaves exactly one entry: the parent, holding
/// the rule's reduction of the 7 child values.
pub proof fn lemma_group_completion<R: CompactionRule>(
    rule: R,
    target: u8,
    m: Map<u64, u32>,
    p: u64,
    dm: int,
    v: u32,
)
    requires
        valid_cell(p),
        res_of(p) <= 14,
        res_of(p) >= target,
        0 <= dm <= 6,
        forall|k: u64|
            #[trigger] m.dom().contains(k) <==> exists|j: int|
                0 <= j <= 6 && j != dm && k == #[trigger] child_spec(p, j),
    ensures
        insert_spec(rule, target, m, child_spec(p, dm), v) == Map::<u64, u32>::empty().insert(
            p,
            rule.reduce_spec(p, group_values(m.insert(child_spec(p, dm), v), p)),
        ),
{
    let c = child_spec(p, dm);
    lemma_child_valid(p, dm);
    assert forall|j: int| 0 <= j <= 6 implies valid_cell(#[trigger] child_spec(p, j)) && res_of(
        child_spec(p, j),
    ) == res_of(p) + 1 && digit_of(child_spec(p, j), res_of(p) + 1) == j by {
        lemma_child_valid(p, j);
    }
    assert(!has_strict_ancestor(m, c)) by {
        if has_strict_ancestor(m, c) {
            let a = choose|a: u64| m.dom().contains(a) && is_strict_ancestor(a, c);
            let j = choose|j: int| 0 <= j <= 6 && j != dm && a == child_spec(p, j);
            assert(res_of(a) == res_of(c));
        }
    }
    assert(strip_descendants(m, c) =~= m) by {
        assert forall|k: u64| #[trigger] m.dom().contains(k) implies !is_strict_ancestor(
            c,
            k,
        ) by {
            let j = choose|j: int| 0 <= j <= 6 && j != dm && k == child_spec(p, j);
            assert(res_of(k) == res_of(c));
        }
    }
    let m1 = m.insert(c, v);
    assert(res_of(c) >= 1);
    assert(parent_spec(c, res_of(c) - 1) == p);
    assert(group_complete(m1, p)) by {
        assert forall|d: int| 0 <= d < 7 implies m1.dom().contains(
            #[trigger] child_spec(p, d),
        ) by {
            if d != dm {
                assert(m.dom().contains(child_spec(p, d)));
            }
        }
    }
    let rv = rule.reduce_spec(p, group_values(m1, p));
    let m2 = remove_children(m1, p).insert(p, rv);
    assert(remove_children(m1, p) =~= Map::<u64, u32>::empty()) by {
        assert forall|k: u64| !(#[trigger] remove_children(m1, p).dom().contains(k)) by {
            if remove_children(m1, p).dom().contains(k) {
                if k == c {
                    assert(exists|d: int| 0 <= d < 7 && k == #[trigger] child_spec(p, d));
                } else {
                    assert(m.dom().contains(k));
                    let j = choose|j: int| 0 <= j <= 6 && j != dm && k == child_spec(p, j);
                    assert(exists|d: int| 0 <= d < 7 && k == #[trigger] child_spec(p, d));
                }
            }
        }
    }
    assert(cascade(rule, target, m1, c) == cascade(rule, target, m2, p));
    assert(cascade(rule, target, m2, p) == m2) by {
        if res_of(p) > 0 {
            let p2 = parent_spec(p, res_of(p) - 1);
            lemma_parent_valid(p, res_of(p) - 1);
            lemma_child_valid(p2, 0);
            lemma_child_valid(p2, 1);
            assert(!group_complete(m2, p2)) by {
                assert(child_spec(p2, 0) != child_spec(p2, 1)) by {
                    assert(digit_of(child_spec(p2, 0), res_of(p2) + 1) == 0);
                    assert(digit_of(child_spec(p2, 1), res_of(p2) + 1) == 1);
                }
                if group_complete(m2, p2) {
                    assert(m2.dom().contains(child_spec(p2, 0)));
                    assert(m2.dom().contains(child_spec(p2, 1)));
                    assert(child_spec(p2, 0) == p || child_spec(p2, 1) == p);
                }
            }
        }
    }
    assert(insert_spec(rule, target, m, c, v) =~= Map::<u64, u32>::empty().insert(p, rv));
}

/// Compaction incompleteness: a record inserted among fewer than 6 of
/// its siblings stays a leaf, and so do they: as long as one sibling is
/// still missing, no merge happens.
pub proof fn lemma_incomplete_group_stays<R: CompactionRule>(
    rule: R,
    target: u8,
    m: Map<u64, u32>,
    p: u64,
    dn: int,
    v: u32,
)
    requires
        valid_cell(p),
        res_of(p) <= 14,
        0 <= dn <= 6,
        forall|k: u64|
            #[trigger] m.dom().contains(k) ==> exists|j: int|
                0 <= j <= 6 && k == #[trigger] child_spec(p, j),
        exists|jm: int|
            0 <= jm <= 6 && jm != dn && !m.dom().contains(#[trigger] child_spec(p, jm)),
    ensures
        insert_spec(rule, target, m, child_spec(p, dn), v) == m.insert(child_spec(p, dn), v),
{
    let c = child_spec(p, dn);
    lemma_child_valid(p, dn);
    assert forall|j: int| 0 <= j <= 6 implies valid_cell(#[trigger] child_spec(p, j)) && res_of(
        child_spec(p, j),
    ) == res_of(p) + 1 && digit_of(child_spec(p, j), res_of(p) + 1) == j by {
        lemma_child_valid(p, j);
    }
    assert(!has_strict_ancestor(m, c)) by {
        if has_strict_ancestor(m, c) {
            let a = choose|a: u64| m.dom().contains(a) && is_strict_ancestor(a, c);
            let j = choose|j: int| 0 <= j <= 6 && a == child_spec(p, j);
            assert(res_of(a) == res_of(c));
        }
    }
    assert(strip_descendants(m, c) =~= m) by {
        assert forall|k: u64| #[trigger] m.dom().contains(k) implies !is_strict_ancestor(
            c,
            k,
        ) by {
            let j = choose|j: int| 0 <= j <= 6 && k == child_spec(p, j);
            assert(res_of(k) == res_of(c));
        }
    }
    let m1 = m.insert(c, v);
    assert(res_of(c) >= 1);
    assert(parent_spec(c, res_of(c) - 1) == p);
    let jm = choose|jm: int|
        0 <= jm <= 6 && jm != dn && !m.dom().contains(#[trigger] child_spec(p, jm));
    assert(!group_complete(m1, p)) by {
        assert(child_spec(p, jm) != c);
        assert(!m1.dom().contains(child_spec(p, jm)));
    }
    assert(cascade(rule, target, m1, c) == m1);
}

/// Compaction boundary: a record whose parent sits strictly below the
/// target resolution is never merged, however complete its sibling
/// group; it simply takes its place in the mapping.
pub proof fn lemma_compaction_boundary<R: CompactionRule>(
    rule: R,
    target: u8,
    m: Map<u64, u32>,
    c: u64,
    v: u32,
)
    requires
        valid_cell(c),
        res_of(c) >= 1,
        res_of(c) - 1 < target,
        !has_strict_ancestor(m, c),
    ensures
        insert_spec(rule, target, m, c, v) == strip_descendants(m, c).insert(c, v),
        (forall|k: u64| #[trigger] m.dom().contains(k) ==> !is_strict_ancestor(c, k))
            ==> insert_spec(rule, target, m, c, v) == m.insert(c, v),
{
    let m1 = strip_descendants(m, c).insert(c, v);
    assert(cascade(rule, target, m1, c) == m1);
    if forall|k: u64| #[trigger] m.dom().contains(k) ==> !is_strict_ancestor(c, k) {
        assert(strip_descendants(m, c) =~= m);
    }
}

/// Same-cell collision: a second record at a cell the index already
/// holds overwrites its value; values at the same cell are never
/// summed. Summation happens only when a sibling group completes, which
/// the hypotheses here rule out.
pub proof fn lemma_same_cell_overwrites<R: CompactionRule>(
    rule: R,
    target: u8,
    m: Map<u64, u32>,
    c: u64,
    v1: u32,
    v2: u32,
)
    requires
        valid_cell(c),
        !has_strict_ancestor(m, c),
        forall|k: u64| #[trigger] m.dom().contains(k) ==> !is_strict_ancestor(c, k),
        res_of(c) >= 1 ==> res_of(c) - 1 < target || !group_complete(
            m.insert(c, v1),
            parent_spec(c, res_of(c) - 1),
        ),
    ensures
        insert_spec(rule, target, m, c, v1) == m.insert(c, v1),
        insert_spec(rule, target, insert_spec(rule, target, m, c, v1), c, v2) == m.insert(c, v2),
{
    assert(strip_descendants(m, c) =~= m);
    let m1 = m.insert(c, v1);
    assert(cascade(rule, target, m1, c) == m1);
    assert(insert_spec(rule, target, m, c, v1) == m1);
    assert(!has_strict_ancestor(m1, c)) by {
        if has_strict_ancestor(m1, c) {
            let a = choose|a: u64| m1.dom().contains(a) && is_strict_ancestor(a, c);
            assert(a != c);
            assert(m.dom().contains(a));
        }
    }
    assert(strip_descendants(m1, c) =~= m1) by {
        assert forall|k: u64| #[trigger] m1.dom().contains(k) implies !is_strict_ancestor(
            c,
            k,
        ) by {
            if k != c {
                assert(m.dom().contains(k));
            }
        }
    }
    let m2 = m1.insert(c, v2);
    assert(m2 =~= m.insert(c, v2));
    assert(cascade(rule, target, m2, c) == m2) by {
        if res_of(c) >= 1 {
            let p = parent_spec(c, res_of(c) - 1);
            if res_of(c) - 1 >= target {
                assert(!group_complete(m1, p));
                if group_complete(m2, p) {
                    assert forall|d: int| 0 <= d < 7 implies m1.dom().contains(
                        #[trigger] child_spec(p, d),
                    ) by {
                        assert(m2.dom().contains(child_spec(p, d)));
                    }
                }
            }
        }
    }
}


/// Order independence, in the absence of merges: two records at
/// unrelated cells, with no coarser or finer entries in the way and
/// completing no sibling group, land in the same mapping whichever is
/// inserted first. (The merge rule itself only reacts to a sibling set
/// becoming complete, which does not depend on arrival order; the
/// serialized index is in any case a function of the mapping alone.)
pub proof fn lemma_unrelated_inserts_commute<R: CompactionRule>(
    rule: R,
    target: u8,
    m: Map<u64, u32>,
    a: u64,
    va: u32,
    b: u64,
    vb: u32,
)
    requires
        valid_cell(a),
        valid_cell(b),
        !cells_related(a, b),
        !has_strict_ancestor(m, a),
        !has_strict_ancestor(m, b),
        forall|k: u64|
            #[trigger] m.dom().contains(k) ==> !is_strict_ancestor(a, k) && !is_strict_ancestor(
                b,
                k,
            ),
        res_of(a) >= 1 ==> res_of(a) - 1 < target || !group_complete(
            m.insert(a, va).insert(b, vb),
            parent_spec(a, res_of(a) - 1),
        ),
        res_of(b) >= 1 ==> res_of(b) - 1 < target || !group_complete(
            m.insert(a, va).insert(b, vb),
            parent_spec(b, res_of(b) - 1),
        ),
    ensures
        insert_spec(rule, target, insert_spec(rule, target, m, a, va), b, vb) == insert_spec(
            rule,
            target,
            insert_spec(rule, target, m, b, vb),
            a,
            va,
        ),
        insert_spec(rule, target, insert_spec(rule, target, m, a, va), b, vb) == m.insert(
            a,
            va,
        ).insert(b, vb),
{
    lemma_one_plain_insert(rule, target, m, a, va, b, vb);
    lemma_one_plain_insert(rule, target, m, b, vb, a, va);
    assert(m.insert(a, va).insert(b, vb) =~= m.insert(b, vb).insert(a, va));
    assert(m.insert(b, vb).insert(a, va).dom() =~= m.insert(a, va).insert(b, vb).dom());
}

/// One insertion of a record with no related entries and no completed
/// group, possibly alongside one other such record: it lands as a plain
/// mapping update, first inserted or second.
proof fn lemma_one_plain_insert<R: CompactionRule>(
    rule: R,
    target: u8,
    m: Map<u64, u32>,
    a: u64,
    va: u32,
    b: u64,
    vb: u32,
)
    requires
        valid_cell(a),
        valid_cell(b),
        !cells_related(a, b),
        !has_strict_ancestor(m, a),
        !has_strict_ancestor(m, b),
        forall|k: u64|
            #[trigger] m.dom().contains(k) ==> !is_strict_ancestor(a, k) && !is_strict_ancestor(
                b,
                k,
            ),
        res_of(a) >= 1 ==> res_of(a) - 1 < target || !group_complete(
            m.insert(a, va).insert(b, vb),
            parent_spec(a, res_of(a) - 1),
        ),
        res_of(b) >= 1 ==> res_of(b) - 1 < target || !group_complete(
            m.insert(a, va).insert(b, vb),
            parent_spec(b, res_of(b) - 1),
        ),
    ensures
        insert_spec(rule, target, m, a, va) == m.insert(a, va),
        insert_spec(rule, target, insert_spec(rule, target, m, a, va), b, vb) == m.insert(
            a,
            va,
        ).insert(b, vb),
{
    assert(strip_descendants(m, a) =~= m);
    let m1 = m.insert(a, va);
    assert(cascade(rule, target, m1, a) == m1) by {
        if res_of(a) >= 1 && res_of(a) - 1 >= target {
            let p = parent_spec(a, res_of(a) - 1);
            if group_complete(m1, p) {
                assert forall|d: int| 0 <= d < 7 implies m.insert(a, va).insert(b, vb)
                    .dom()
                    .contains(#[trigger] child_spec(p, d)) by {
                    assert(m1.dom().contains(child_spec(p, d)));
                }
            }
        }
    }
    assert(insert_spec(rule, target, m, a, va) == m1);
    assert(!has_strict_ancestor(m1, b)) by {
        if has_strict_ancestor(m1, b) {
            let x = choose|x: u64| m1.dom().contains(x) && is_strict_ancestor(x, b);
            assert(x != a);
            assert(m.dom().contains(x));
        }
    }
    assert(strip_descendants(m1, b) =~= m1) by {
        assert forall|k: u64| #[trigger] m1.dom().contains(k) implies !is_strict_ancestor(
            b,
            k,
        ) by {
            if k != a {
                assert(m.dom().contains(k));
            }
        }
    }
    let m2 = m1.insert(b, vb);
    assert(cascade(rule, target, m2, b) == m2) by {
        if res_of(b) >= 1 && res_of(b) - 1 >= target {
            let p = parent_spec(b, res_of(b) - 1);
            assert(!group_complete(m2, p));
        }
    }
    assert(insert_spec(rule, target, m1, b, vb) == m2);
}


/// The mapping holding the first `n` children of `p` as leaves, each
/// with value `v`.
pub open spec fn child_leaves(p: u64, v: u32, n: int) -> Map<u64, u32> {
    Map::new(|k: u64| exists|j: int| 0 <= j < n && k == child_spec(p, j), |k: u64| v)
}

/// The first `n` children of `p`, each holding `v`, inserted one after
/// the other into an empty index.
pub open spec fn insert_children<R: CompactionRule>(
    rule: R,
    target: u8,
    p: u64,
    v: u32,
    n: int,
) -> Map<u64, u32>
    decreases n,
{
    if n <= 0 {
        Map::empty()
    } else {
        insert_spec(rule, target, insert_children(rule, target, p, v, n - 1), child_spec(p, n - 1), v)
    }
}

/// Compaction completeness, from the ground up: with the parent at or
/// below the target resolution, inserting 6 of its 7 children leaves 6
/// leaf entries and no parent entry, and inserting the seventh leaves
/// exactly one entry, the parent, holding the rule's reduction of the 7
/// equal values.
pub proof fn lemma_seven_siblings<R: CompactionRule>(rule: R, target: u8, p: u64, v: u32)
    requires
        valid_cell(p),
        res_of(p) <= 14,
        res_of(p) >= target,
    ensures
        forall|n: int|
            0 <= n <= 6 ==> #[trigger] insert_children(rule, target, p, v, n) == child_leaves(
                p,
                v,
                n,
            ),
        insert_children(rule, target, p, v, 7) == Map::<u64, u32>::empty().insert(
            p,
            rule.reduce_spec(p, Seq::new(7, |d: int| v)),
        ),
{
    assert forall|j: int| 0 <= j <= 6 implies valid_cell(#[trigger] child_spec(p, j)) && res_of(
        child_spec(p, j),
    ) == res_of(p) + 1 && digit_of(child_spec(p, j), res_of(p) + 1) == j by {
        lemma_child_valid(p, j);
    }
    assert forall|n: int| 0 <= n <= 6 implies #[trigger] insert_children(rule, target, p, v, n)
        == child_leaves(p, v, n) by {
        lemma_children_build_leaves(rule, target, p, v, n);
    }
    lemma_children_build_leaves(rule, target, p, v, 6);
    let m6 = child_leaves(p, v, 6);
    assert forall|k: u64|
        #[trigger] m6.dom().contains(k) <==> exists|j: int|
            0 <= j <= 6 && j != 6 && k == #[trigger] child_spec(p, j) by {
        if m6.dom().contains(k) {
            let j = choose|j: int| 0 <= j < 6 && k == child_spec(p, j);
            assert(0 <= j <= 6 && j != 6 && k == child_spec(p, j));
        }
        if exists|j: int| 0 <= j <= 6 && j != 6 && k == child_spec(p, j) {
            let j = choose|j: int| 0 <= j <= 6 && j != 6 && k == child_spec(p, j);
            assert(0 <= j < 6 && k == child_spec(p, j));
        }
    }
    lemma_group_completion(rule, target, m6, p, 6, v);
    let m7 = m6.insert(child_spec(p, 6), v);
    assert(group_values(m7, p) =~= Seq::new(7, |d: int| v)) by {
        assert forall|d: int| 0 <= d < 7 implies group_values(m7, p)[d] == v by {
            if d != 6 {
                assert(m6.dom().contains(child_spec(p, d)));
                assert(m7[child_spec(p, d)] == v);
            }
        }
    }
}

/// Each of the first 6 insertions lands as a leaf: its sibling at digit
/// 6 is still missing, so no merge can happen.
proof fn lemma_children_build_leaves<R: CompactionRule>(
    rule: R,
    target: u8,
    p: u64,
    v: u32,
    n: int,
)
    requires
        valid_cell(p),
        res_of(p) <= 14,
        0 <= n <= 6,
    ensures
        insert_children(rule, target, p, v, n) == child_leaves(p, v, n),
    decreases n,
{
    assert forall|j: int| 0 <= j <= 6 implies valid_cell(#[trigger] child_spec(p, j)) && res_of(
        child_spec(p, j),
    ) == res_of(p) + 1 && digit_of(child_spec(p, j), res_of(p) + 1) == j by {
        lemma_child_valid(p, j);
    }
    if n == 0 {
        assert(insert_children(rule, target, p, v, 0) =~= child_leaves(p, v, 0));
    } else {
        lemma_children_build_leaves(rule, target, p, v, n - 1);
        let m = child_leaves(p, v, n - 1);
        assert forall|k: u64| #[trigger] m.dom().contains(k) implies exists|j: int|
            0 <= j <= 6 && k == #[trigger] child_spec(p, j) by {
            let j = choose|j: int| 0 <= j < n - 1 && k == child_spec(p, j);
            assert(0 <= j <= 6 && k == child_spec(p, j));
        }
        assert(!m.dom().contains(child_spec(p, 6))) by {
            if m.dom().contains(child_spec(p, 6)) {
                let j = choose|j: int| 0 <= j < n - 1 && child_spec(p, 6) == #[trigger] child_spec(p, j);
                assert(digit_of(child_spec(p, j), res_of(p) + 1) == j);
            }
        }
        assert(exists|jm: int|
            0 <= jm <= 6 && jm != n - 1 && !m.dom().contains(#[trigger] child_spec(p, jm)));
        lemma_incomplete_group_stays(rule, target, m, p, n - 1, v);
        assert(m.insert(child_spec(p, n - 1), v) =~= child_leaves(p, v, n)) by {
            assert forall|k: u64|
                #[trigger] m.insert(child_spec(p, n - 1), v).dom().contains(k)
                    == child_leaves(p, v, n).dom().contains(k) by {
                if m.insert(child_spec(p, n - 1), v).dom().contains(k) {
                    if k == child_spec(p, n - 1) {
                        assert(exists|j: int| 0 <= j < n && k == #[trigger] child_spec(p, j));
                    } else {
                        let j = choose|j: int| 0 <= j < n - 1 && k == child_spec(p, j);
                        assert(0 <= j < n && k == child_spec(p, j));
                        assert(exists|j2: int| 0 <= j2 < n && k == #[trigger] child_spec(p, j2));
                    }
                }
                if child_leaves(p, v, n).dom().contains(k) {
                    let j = choose|j: int| 0 <= j < n && k == child_spec(p, j);
                    if j < n - 1 {
                        assert(exists|j2: int| 0 <= j2 < n - 1 && k == #[trigger] child_spec(p, j2));
                    }
                }
            }
        }
    }
}

} // verus!
