use hackrf_gnss::iridium::blobs::{blobs, extent, split, Extent};

fn grid(rows: &[&str]) -> Vec<bool> {
    rows.iter().flat_map(|r| r.chars().map(|c| c == '#')).collect()
}

#[test]
fn touching_cells_make_a_blob() {
    let hot = grid(&["##..#", ".#..#", "....#", "#...."]);
    let mut found = blobs(&hot, 4, 5);
    for b in found.iter_mut() {
        b.sort();
    }
    assert_eq!(found, vec![vec![0, 1, 6], vec![4, 9, 14], vec![15]]);
    assert!(blobs(&[false; 6], 2, 3).is_empty());
}

#[test]
fn corners_do_not_touch() {
    let hot = grid(&["#.", ".#"]);
    assert_eq!(blobs(&hot, 2, 2), vec![vec![0], vec![3]]);
}

#[test]
fn the_extent_of_a_blob() {
    let e = extent(&[0, 1, 6], 5);
    assert_eq!(e, Extent { row_min: 0, row_max: 1, band_min: 0, band_max: 1 });
}

#[test]
fn a_wide_blob_splits_into_channels() {
    let cells: Vec<usize> = (0..4).flat_map(|r| (0..6).map(move |b| 10 * r + b)).collect();
    let e = extent(&cells, 10);
    let parts = split(&cells, 10, e, 2);
    assert_eq!(parts.len(), 2);
    assert!(parts[0].iter().all(|c| c % 10 < 3) && parts[1].iter().all(|c| c % 10 >= 3));
    assert_eq!(parts[0].len() + parts[1].len(), cells.len());
    let few = [0, 1, 2];
    assert_eq!(split(&few, 10, extent(&few, 10), 1), vec![vec![0, 1, 2]], "a single channel is kept whole");
    assert!(split(&few, 10, extent(&few, 10), 2).is_empty(), "of several, those of few cells are left out");
}
