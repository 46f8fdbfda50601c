use gpwgen::codec::decode_stream;
use gpwgen::options::Cli;
use gpwgen::tess::{canonical_cells, encode_cell_records};

#[test]
fn test_canonical_cells_sorted_dedup() {
    let raw = vec![9u64, 3, 7, 3, 9, 1, 7, 7];
    let out = canonical_cells(&raw);
    assert_eq!(out, vec![1, 3, 7, 9]);
}

#[test]
fn test_canonical_cells_of_covering_query() {
    // A real covering query over one grid cell's footprint, as the
    // tessellation stage runs it.
    let cellsize = 0.0083333333333333f64;
    let left = 7.41f64;
    let bottom = 43.72f64;
    let ring = geo::LineString::from(vec![
        (left, bottom),
        (left + cellsize, bottom),
        (left + cellsize, bottom + cellsize),
        (left, bottom + cellsize),
        (left, bottom),
    ]);
    let poly = geo::Polygon::new(ring, vec![]);
    let mut tiler = h3o::geom::TilerBuilder::new(h3o::Resolution::Ten).build();
    tiler.add(poly).unwrap();
    let raw: Vec<u64> = tiler.into_coverage().map(u64::from).collect();
    assert!(!raw.is_empty());
    let out = canonical_cells(&raw);
    // Sorted ascending, no duplicates.
    for w in out.windows(2) {
        assert!(w[0] < w[1]);
    }
    // Same set of cells.
    let mut expected = raw.clone();
    expected.sort();
    expected.dedup();
    assert_eq!(out, expected);
}

#[test]
fn test_mass_preservation() {
    // One grid cell's value split evenly over its covering cells sums
    // back to the original value within floating-point tolerance.
    let cells: Vec<u64> = (0..13u64).map(|i| 0x8a2a1072b59ffff + (i << 52)).collect();
    let cells = canonical_cells(&cells);
    let n = cells.len();
    let value = 0.123f32;
    let split = value / n as f32;
    let bytes = encode_cell_records(&cells, split.to_bits());
    let records = decode_stream(&bytes).unwrap();
    assert_eq!(records.len(), n);
    let total: f32 = records.iter().map(|r| f32::from_bits(r.value)).sum();
    assert!(((total - value) / value).abs() < 1e-5);
}

#[test]
fn test_cli_holds_path() {
    let cli = Cli { path: String::from("combined.h3tess") };
    assert_eq!(cli.path, "combined.h3tess");
}
