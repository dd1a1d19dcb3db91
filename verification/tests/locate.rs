use hackrf_gnss::iridium::locate::{best_place, better, coarse_grid, explained_by, Score};

fn score(hits: usize, mean: f64) -> Score {
    Score { hits, mean: mean.to_bits() }
}

#[test]
fn coarse_grid_spans_the_continent() {
    let g = coarse_grid();
    assert_eq!(g.len(), 703);
    assert_eq!(g[0], (20, -130));
    assert_eq!(g[1], (20, -128));
    assert_eq!(g[36], (20, -58));
    assert_eq!(g[37], (22, -130));
    assert_eq!(g[702], (56, -58));
}

#[test]
fn tracks_go_to_the_nearest_rate() {
    let d: Vec<u64> = [40.0f64, 3.5, 3.5, 90.0].iter().map(|x| x.to_bits()).collect();
    assert_eq!(explained_by(&d, 10.0f64.to_bits()), Some(1));
    assert_eq!(explained_by(&d, 3.5f64.to_bits()), None);
    assert_eq!(explained_by(&[], 10.0f64.to_bits()), None);
    let nan = f64::NAN.to_bits();
    assert_eq!(explained_by(&[d[0], nan, d[1]], 10.0f64.to_bits()), Some(2));
    assert_eq!(explained_by(&[nan, d[1]], 10.0f64.to_bits()), None);
    assert_eq!(explained_by(&d, nan), None);
}

#[test]
fn hits_come_before_closeness() {
    assert!(better(score(3, 9.0), score(2, 0.5)));
    assert!(better(score(3, 0.5), score(3, 9.0)));
    assert!(!better(score(3, 9.0), score(3, 9.0)));
    assert!(!better(score(2, 0.5), score(3, 9.0)));
}

#[test]
fn first_of_the_best_places_wins() {
    let s = [score(1, 2.0), score(4, 5.0), score(4, 3.0), score(4, 3.0), score(0, 0.0)];
    assert_eq!(best_place(&s), Some(2));
    assert_eq!(best_place(&[]), None);
}

#[test]
fn refining_keeps_the_present_place_on_a_tie() {
    assert_eq!(best_place(&[score(4, 3.0), score(4, 3.0), score(3, 0.0)]), Some(0));
    assert_eq!(best_place(&[score(4, 3.0), score(4, 2.5)]), Some(1));
}
