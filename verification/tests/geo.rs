use hackrf_gnss::iridium::geo::{
    attributable, basins, first_two, global_grid, next_round, Action, Iteration, Layout, NoFix, Outcome, MAX_ITERS,
    MAX_TRIES,
};

fn names(list: &[&str]) -> Vec<String> {
    list.iter().map(|s| s.to_string()).collect()
}

#[test]
fn columns_of_the_state() {
    let l = Layout::new(&[7, 3, 7], &names(&["B", "A", "B"]), true, true);
    assert_eq!(l.present, vec![3, 7]);
    assert_eq!(l.np(), 2 + 2 + 2 + 2);
    assert_eq!(l.min_obs(), 8);
    assert_eq!((l.cap_dense(3), l.cap_dense(7), l.cap_dense(9)), (0, 1, 0));
    assert_eq!(l.sat_columns("A"), (Some(4), Some(6)));
    assert_eq!(l.sat_columns("B"), (Some(5), Some(7)));
    assert_eq!(l.sat_columns("C"), (None, None));
    let l = Layout::new(&[7, 3, 7], &names(&["B", "A", "B"]), false, false);
    assert_eq!((l.np(), l.min_obs()), (4, 5));
    assert_eq!(l.sat_columns("A"), (None, None));
}

#[test]
fn rounds_go_on_while_bursts_are_held_back() {
    let keep = [0, 2, 4, 6, 8];
    assert_eq!(next_round(&keep, &[true, false, true, true, true], 3), Some(vec![0, 4, 6, 8]));
    assert_eq!(next_round(&keep, &[true; 5], 3), None);
    assert_eq!(next_round(&keep, &[true, false, false, false, true], 3), None);
}

#[test]
fn an_iteration_that_improves_settles() {
    let s = Iteration::start();
    assert_eq!(s.next(Outcome::Formed { enough: true, regular: true }), (s, Action::Try));
    assert_eq!(s.next(Outcome::Formed { enough: false, regular: true }).1, Action::Fail(NoFix::TooFew));
    assert_eq!(s.next(Outcome::Formed { enough: true, regular: false }).1, Action::Fail(NoFix::Singular));
    let (s2, a) = s.next(Outcome::Tried { better: true, settled: false });
    assert_eq!((s2.iters, s2.tries, a), (2, 0, Action::Advance));
    assert_eq!(s2.next(Outcome::Tried { better: true, settled: true }).1, Action::TakeAndStop);
}

#[test]
fn an_iteration_that_stalls_gives_up() {
    let mut s = Iteration::start();
    for _ in 1..MAX_TRIES {
        let (next, a) = s.next(Outcome::Tried { better: false, settled: false });
        assert_eq!(a, Action::Raise);
        s = next;
    }
    assert_eq!(s.next(Outcome::Tried { better: false, settled: false }).1, Action::Fail(NoFix::NoProgress));
    let later = Iteration { iters: 2, tries: MAX_TRIES - 1 };
    assert_eq!(later.next(Outcome::Tried { better: false, settled: false }).1, Action::Stop);
    let last = Iteration { iters: MAX_ITERS, tries: 0 };
    assert_eq!(last.next(Outcome::Tried { better: true, settled: false }).1, Action::TakeAndStop);
}

#[test]
fn the_grid_covers_the_globe() {
    let g = global_grid();
    assert_eq!((g.len(), g[0], g[9], g[39]), (40, (-60, -180), (-30, -135), (60, 135)));
}

#[test]
fn near_fixes_share_a_basin() {
    let near = vec![
        vec![true, false, true, false],
        vec![false, true, false, true],
        vec![true, false, true, false],
        vec![false, true, false, true],
    ];
    assert_eq!(basins(&near, &[true; 4]), vec![0, 1]);
    assert_eq!(basins(&near, &[false, true, true, true]), vec![1, 2]);
}

#[test]
fn the_best_and_the_runner_up() {
    assert_eq!(first_two(&[false, true, false, true, true]), (Some(1), Some(3)));
    assert_eq!(first_two(&[false, true]), (Some(1), None));
    assert_eq!(first_two(&[]), (None, None));
}

#[test]
fn unnamed_bursts_do_not_count() {
    let listed = names(&["IRIDIUM 33", "", "IRIDIUM 7"]);
    let kept = attributable(&listed);
    assert!(kept.contains(&0) && kept.contains(&2));
}
