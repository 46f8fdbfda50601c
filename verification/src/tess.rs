//! The tessellation stage's owned logic.
//!
//! The geometric covering query — from a grid cell's corner coordinates
//! to the hexagonal cells covering its footprint — is floating-point
//! geometry and lives outside the library. What it hands back may name
//! a cell more than once at shared edges and in no particular order;
//! here that raw list is put into its canonical form (sorted ascending,
//! no duplicates), and the output records of one grid cell are built:
//! every covering cell paired with the same evenly split value.

use vstd::prelude::*;

use crate::codec::{encode_stream, stream_bytes, SpatialRecord};

verus! {

/// A value occurs in the list.
pub open spec fn seq_has_u64(s: Seq<u64>, x: u64) -> bool {
    exists|i: int| 0 <= i < s.len() && s[i] == x
}

/// Strictly ascending: sorted, and no room for a duplicate.
pub open spec fn sorted_strict_u64(s: Seq<u64>) -> bool {
    forall|i: int, j: int| 0 <= i < j < s.len() ==> s[i] < s[j]
}

/// Inserting an element adds exactly it to the members.
proof fn lemma_seq_u64_insert(s: Seq<u64>, j: int, x: u64)
    requires
        0 <= j <= s.len(),
    ensures
        forall|y: u64|
            #![trigger seq_has_u64(s.insert(j, x), y)]
            seq_has_u64(s.insert(j, x), y) <==> (seq_has_u64(s, y) || y == x),
{
    assert forall|y: u64|
        #![trigger seq_has_u64(s.insert(j, x), y)]
        seq_has_u64(s.insert(j, x), y) <==> (seq_has_u64(s, y) || y == x) by {
        if seq_has_u64(s.insert(j, x), y) {
            let i = choose|i: int| 0 <= i < s.insert(j, x).len() && s.insert(j, x)[i] == y;
            if i < j {
                assert(s[i] == y);
            } else if i > j {
                assert(s[i - 1] == y);
            }
        }
        if seq_has_u64(s, y) {
            let i = choose|i: int| 0 <= i < s.len() && s[i] == y;
            if i < j {
                assert(s.insert(j, x)[i] == y);
            } else {
                assert(s.insert(j, x)[i + 1] == y);
            }
        }
        if y == x {
            assert(s.insert(j, x)[j] == y);
        }
    }
}

/// The canonical form of a covering query's result: the same set of
/// cells, sorted ascending, each exactly once.
pub fn canonical_cells(cells: &Vec<u64>) -> (out: Vec<u64>)
    ensures
        sorted_strict_u64(out@),
        forall|x: u64| seq_has_u64(out@, x) <==> seq_has_u64(cells@, x),
{
    let ghost s = cells@;
    let mut out: Vec<u64> = Vec::new();
    let mut i: usize = 0;
    while i < cells.len()
        invariant
            i <= s.len(),
            cells@ == s,
            sorted_strict_u64(out@),
            forall|x: u64| seq_has_u64(out@, x) <==> seq_has_u64(s.subrange(0, i as int), x),
        decreases s.len() - i,
    {
        let x = cells[i];
        let ghost prefix = s.subrange(0, i as int);
        proof {
            assert(prefix.push(x) =~= s.subrange(0, i as int + 1));
            lemma_seq_u64_insert(prefix, prefix.len() as int, x);
            assert(prefix.insert(prefix.len() as int, x) =~= prefix.push(x));
        }
        let mut pos: usize = 0;
        while pos < out.len() && out[pos] < x
            invariant
                pos <= out@.len(),
                sorted_strict_u64(out@),
                forall|t: int| 0 <= t < pos ==> out@[t] < x,
            decreases out@.len() - pos,
        {
            pos = pos + 1;
        }
        let duplicate = pos < out.len() && out[pos] == x;
        if duplicate {
            proof {
                assert(seq_has_u64(out@, x));
            }
        } else {
            let ghost out0 = out@;
            proof {
                if (pos as int) < out0.len() {
                    assert(out0[pos as int] > x);
                }
                lemma_seq_u64_insert(out0, pos as int, x);
            }
            out.insert(pos, x);
            proof {
                assert(sorted_strict_u64(out@)) by {
                    assert forall|a: int, b: int| 0 <= a < b < out@.len() implies out@[a]
                        < out@[b] by {
                        if b < pos {
                        } else if a < pos && b == pos {
                            assert(out@[a] == out0[a]);
                        } else if a < pos {
                            assert(out@[a] == out0[a] && out@[b] == out0[b - 1]);
                            assert(out0[b - 1] >= out0[pos as int] || b - 1 == pos);
                        } else if a == pos {
                            assert(out@[b] == out0[b - 1]);
                            assert(out0[b - 1] >= out0[pos as int]);
                        } else {
                            assert(out@[a] == out0[a - 1] && out@[b] == out0[b - 1]);
                        }
                    }
                }
            }
        }
        proof {
            assert forall|y: u64| seq_has_u64(out@, y) <==> seq_has_u64(
                s.subrange(0, i as int + 1),
                y,
            ) by {
                lemma_seq_u64_insert(prefix, prefix.len() as int, x);
                assert(prefix.insert(prefix.len() as int, x) =~= s.subrange(0, i as int + 1));
                assert(seq_has_u64(prefix.insert(prefix.len() as int, x), y) <==> (seq_has_u64(
                    prefix,
                    y,
                ) || y == x));
                if y == x {
                    assert(seq_has_u64(out@, x));
                }
            }
        }
        i = i + 1;
    }
    proof {
        assert(s.subrange(0, s.len() as int) =~= s);
    }
    out
}

/// The records of one tessellated grid cell: every covering cell paired
/// with the same split value.
pub open spec fn records_for(cells: Seq<u64>, value: u32) -> Seq<SpatialRecord> {
    Seq::new(cells.len(), |i: int| SpatialRecord { cell: cells[i], value })
}

/// Pairs every covering cell with the split value.
pub fn cell_records(cells: &Vec<u64>, value: u32) -> (out: Vec<SpatialRecord>)
    ensures
        out@ == records_for(cells@, value),
{
    let mut out: Vec<SpatialRecord> = Vec::new();
    let mut i: usize = 0;
    while i < cells.len()
        invariant
            i <= cells@.len(),
            out@.len() == i,
            forall|j: int| 0 <= j < i ==> out@[j] == (SpatialRecord { cell: cells@[j], value }),
        decreases cells@.len() - i,
    {
        out.push(SpatialRecord { cell: cells[i], value });
        i = i + 1;
    }
    proof {
        assert(out@ =~= records_for(cells@, value));
    }
    out
}

/// Encodes one tessellated grid cell's records for the output stream.
pub fn encode_cell_records(cells: &Vec<u64>, value: u32) -> (out: Vec<u8>)
    ensures
        out@ == stream_bytes(records_for(cells@, value)),
{
    let recs = cell_records(cells, value);
    encode_stream(&recs)
}

} // verus!
