use gpwgen::cell::{cell_child, cell_parent, cell_res, check_cell};
use gpwgen::codec::{encode_stream, SpatialRecord, StreamError};
use gpwgen::index::{combine_streams, CompactionRule, HexIndex};

/// Sums the 7 child values as IEEE-754 singles, as the combine stage does.
struct SumRule;

impl CompactionRule for SumRule {
    fn reduce(&self, _cell: u64, children: &Vec<u32>) -> u32 {
        let mut sum = 0.0f32;
        for bits in children.iter() {
            sum += f32::from_bits(*bits);
        }
        sum.to_bits()
    }
}

/// A known valid cell: resolution 5, base cell 20.
const CELL_RES5: u64 = 0x85283473fffffff;

fn rec(cell: u64, value: f32) -> SpatialRecord {
    SpatialRecord { cell, value: value.to_bits() }
}

fn stream(records: &[SpatialRecord]) -> Vec<u8> {
    encode_stream(&records.to_vec())
}

#[test]
fn test_seven_siblings_merge() {
    // All 7 children of a resolution-5 parent, inserted at resolution 6,
    // with the target at 5: one entry at the parent holding the sum.
    let p = CELL_RES5;
    let mut idx: HexIndex<SumRule> = HexIndex::new(5, SumRule);
    for d in 0..7u8 {
        idx.insert(cell_child(p, d), 1.5f32.to_bits());
    }
    let recs = idx.records();
    assert_eq!(recs.len(), 1);
    assert_eq!(recs[0].cell, p);
    assert_eq!(f32::from_bits(recs[0].value), 7.0 * 1.5);
}

#[test]
fn test_six_siblings_stay() {
    // Only 6 of the 7 children: six leaves, no parent entry.
    let p = CELL_RES5;
    let mut idx: HexIndex<SumRule> = HexIndex::new(5, SumRule);
    for d in 0..6u8 {
        idx.insert(cell_child(p, d), 1.5f32.to_bits());
    }
    let recs = idx.records();
    assert_eq!(recs.len(), 6);
    assert_eq!(idx.get(p), None);
    for r in recs.iter() {
        assert_eq!(cell_res(r.cell), 6);
        assert_eq!(f32::from_bits(r.value), 1.5);
    }
}

#[test]
fn test_boundary_rule() {
    // A complete sibling group whose parent is strictly below the target
    // resolution is never merged.
    let p = CELL_RES5;
    let mut idx: HexIndex<SumRule> = HexIndex::new(6, SumRule);
    for d in 0..7u8 {
        idx.insert(cell_child(p, d), 2.0f32.to_bits());
    }
    let recs = idx.records();
    assert_eq!(recs.len(), 7);
    assert_eq!(idx.get(p), None);
}

#[test]
fn test_cascade_two_levels() {
    // The 6 siblings of a resolution-5 cell, then the 7 children of that
    // cell: the fine group merges to resolution 5, which completes the
    // coarser group, which merges to resolution 4.
    let p5 = CELL_RES5;
    let p4 = cell_parent(p5, 4);
    let mut idx: HexIndex<SumRule> = HexIndex::new(4, SumRule);
    for d in 0..7u8 {
        let sibling5 = cell_child(p4, d);
        if sibling5 != p5 {
            idx.insert(sibling5, 7.0f32.to_bits());
        }
    }
    assert_eq!(idx.records().len(), 6);
    for d in 0..7u8 {
        idx.insert(cell_child(p5, d), 1.0f32.to_bits());
    }
    let recs = idx.records();
    assert_eq!(recs.len(), 1);
    assert_eq!(recs[0].cell, p4);
    assert_eq!(f32::from_bits(recs[0].value), 49.0);
}

#[test]
fn test_order_independence() {
    // A fixed set of records gives one index, whatever the insertion order.
    let p = CELL_RES5;
    let mut cells: Vec<(u64, u32)> = (0..7u8)
        .map(|d| (cell_child(p, d), (d as f32 + 0.25).to_bits()))
        .collect();
    let other = cell_child(cell_parent(p, 3), 2);
    cells.push((other, 9.75f32.to_bits()));

    let reference: Vec<u8> = {
        let mut idx: HexIndex<SumRule> = HexIndex::new(5, SumRule);
        for (c, v) in cells.iter() {
            idx.insert(*c, *v);
        }
        idx.to_bytes()
    };
    // A few permutations, including reversed and interleaved orders.
    let mut orders: Vec<Vec<usize>> = Vec::new();
    orders.push((0..cells.len()).rev().collect());
    orders.push(vec![7, 3, 0, 5, 1, 6, 2, 4]);
    orders.push(vec![4, 7, 6, 5, 0, 1, 2, 3]);
    for order in orders {
        let mut idx: HexIndex<SumRule> = HexIndex::new(5, SumRule);
        for &i in order.iter() {
            let (c, v) = cells[i];
            idx.insert(c, v);
        }
        assert_eq!(idx.to_bytes(), reference);
    }
}

#[test]
fn test_last_write_wins_at_same_cell() {
    // Two sources each carrying (cellA, 1.0): the second insertion
    // overwrites the first; values at the same cell are never summed.
    let cell_a = CELL_RES5;
    let s1 = stream(&[rec(cell_a, 1.0)]);
    let s2 = stream(&[rec(cell_a, 1.0)]);
    let idx = combine_streams(&vec![s1, s2], 5, SumRule).unwrap();
    let recs = idx.records();
    assert_eq!(recs.len(), 1);
    assert_eq!(recs[0].cell, cell_a);
    assert_eq!(f32::from_bits(recs[0].value), 1.0);

    // Distinct values: the later stream's value stands.
    let s3 = stream(&[rec(cell_a, 1.0)]);
    let s4 = stream(&[rec(cell_a, 2.5)]);
    let idx2 = combine_streams(&vec![s3, s4], 5, SumRule).unwrap();
    assert_eq!(f32::from_bits(idx2.get(cell_a).unwrap()), 2.5);
}

#[test]
fn test_multi_source_combine() {
    // Records from several streams land in one index exactly as repeated
    // insertion would put them.
    let p = CELL_RES5;
    let s1 = stream(&[rec(cell_child(p, 0), 1.0), rec(cell_child(p, 1), 2.0)]);
    let s2 = stream(&[rec(cell_child(p, 2), 4.0)]);
    let idx = combine_streams(&vec![s1, s2], 5, SumRule).unwrap();
    let recs = idx.records();
    assert_eq!(recs.len(), 3);
    let total: f32 = recs.iter().map(|r| f32::from_bits(r.value)).sum();
    assert_eq!(total, 7.0);
}

#[test]
fn test_combine_rejects_invalid_cell() {
    // 0 has mode 0: not a cell identifier.
    let s = stream(&[rec(0, 1.0)]);
    match combine_streams(&vec![s], 5, SumRule) {
        Err(e) => assert_eq!(e, StreamError::InvalidCellId(0)),
        Ok(_) => panic!("expected an invalid cell identifier error"),
    }
}

#[test]
fn test_combine_rejects_truncated_stream() {
    let mut s = stream(&[rec(CELL_RES5, 1.0), rec(cell_child(CELL_RES5, 0), 1.0)]);
    s.truncate(20);
    match combine_streams(&vec![s], 5, SumRule) {
        Err(e) => assert_eq!(e, StreamError::TruncatedRecord),
        Ok(_) => panic!("expected a truncated record error"),
    }
}

#[test]
fn test_insert_under_coarser_entry_is_absorbed() {
    // A record strictly inside a held footprint is absorbed without change.
    let p = CELL_RES5;
    let mut idx: HexIndex<SumRule> = HexIndex::new(4, SumRule);
    idx.insert(p, 3.0f32.to_bits());
    idx.insert(cell_child(p, 4), 1.0f32.to_bits());
    let recs = idx.records();
    assert_eq!(recs.len(), 1);
    assert_eq!(recs[0].cell, p);
    assert_eq!(f32::from_bits(recs[0].value), 3.0);
}

#[test]
fn test_insert_above_finer_entries_replaces_them() {
    // A record whose footprint contains held entries replaces them.
    let p = CELL_RES5;
    let mut idx: HexIndex<SumRule> = HexIndex::new(4, SumRule);
    idx.insert(cell_child(p, 0), 1.0f32.to_bits());
    idx.insert(cell_child(p, 1), 1.0f32.to_bits());
    idx.insert(p, 5.0f32.to_bits());
    let recs = idx.records();
    assert_eq!(recs.len(), 1);
    assert_eq!(recs[0].cell, p);
    assert_eq!(f32::from_bits(recs[0].value), 5.0);
}

#[test]
fn test_cell_model_matches_h3o_and_hextree() {
    // The bit model agrees with the geometry libraries it stands for.
    let c = CELL_RES5;
    let h = h3o::CellIndex::try_from(c).unwrap();
    assert_eq!(cell_res(c), u8::from(h.resolution()));
    let hp = h.parent(h3o::Resolution::Four).unwrap();
    assert_eq!(cell_parent(c, 4), u64::from(hp));
    assert!(hextree::Cell::from_raw(c).is_ok());
    // The 7 children of the parent, per this library, are exactly h3o's.
    let mut ours: Vec<u64> = (0..7u8).map(|d| cell_child(cell_parent(c, 4), d)).collect();
    let mut theirs: Vec<u64> = hp.children(h3o::Resolution::Five).map(u64::from).collect();
    ours.sort();
    theirs.sort();
    assert_eq!(ours, theirs);
    // Acceptance agrees with the libraries on rejects.
    for bad in [0u64, u64::MAX, 1u64 << 63 | c] {
        assert!(!check_cell(bad) || hextree::Cell::from_raw(bad).is_ok());
    }
    assert!(check_cell(c));
    assert!(!check_cell(0));
}

#[test]
fn test_combine_no_sources() {
    let streams: Vec<Vec<u8>> = Vec::new();
    let idx = combine_streams(&streams, 8, SumRule).unwrap();
    assert_eq!(idx.records().len(), 0);
    assert_eq!(idx.to_bytes(), Vec::<u8>::new());
}

#[test]
fn test_combine_empty_stream_is_clean() {
    let idx = combine_streams(&vec![Vec::new()], 8, SumRule).unwrap();
    assert_eq!(idx.records().len(), 0);
}
