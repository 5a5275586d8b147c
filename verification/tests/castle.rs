use castle_search::castle::{Castle, TROOPS};
use castle_search::castle_searcher::{CastleSearcher, N_TRAINING_SAMPLES};
use castle_search::model::{Searchable, State};

fn castle(cuts: [u8; 9]) -> Castle {
    Castle::from_cuts(cuts).expect("no cut is above the number of troops")
}

#[test]
fn troops_are_the_gaps_between_cuts() {
    let c = castle([10, 20, 30, 40, 50, 60, 70, 80, 90]);
    assert_eq!(c.troops(), vec![10, 10, 10, 10, 10, 10, 10, 10, 10, 10]);
    let c = castle([0, 0, 5, 5, 17, 40, 40, 99, 100]);
    assert_eq!(c.troops(), vec![0, 0, 5, 0, 12, 23, 0, 59, 1, 0]);
    assert_eq!(c.troops().iter().map(|t| *t as u32).sum::<u32>(), TROOPS as u32);
}

#[test]
fn the_default_castle_sends_all_troops_last() {
    let c = Castle::default();
    assert_eq!(c.cuts(), [0; 9]);
    assert_eq!(c.troops(), vec![0, 0, 0, 0, 0, 0, 0, 0, 0, 100]);
}

#[test]
fn cuts_are_put_in_order() {
    let c = castle([90, 10, 50, 0, 100, 50, 3, 77, 2]);
    assert_eq!(c.cuts(), [0, 2, 3, 10, 50, 50, 77, 90, 100]);
}

#[test]
fn a_cut_above_the_troops_is_refused() {
    assert!(Castle::from_cuts([0, 0, 0, 0, 0, 0, 0, 0, 101]).is_none());
    assert!(Castle::from_cuts([255, 0, 0, 0, 0, 0, 0, 0, 0]).is_none());
    assert!(Castle::from_cuts([100; 9]).is_some());
}

#[test]
fn the_castle_with_more_points_wins() {
    // All troops on the last castle against all troops on the first:
    // the last castle is worth 20, the first 2, the rest are drawn.
    let last = castle([0; 9]);
    let first = castle([100; 9]);
    assert!(last.does_win(&first));
    assert!(!first.does_win(&last));
    // Nobody wins against themselves.
    assert!(!last.does_win(&last));
    let even = castle([10, 20, 30, 40, 50, 60, 70, 80, 90]);
    assert!(!even.does_win(&even));
    // Ten troops everywhere take castles 1 to 9, worth 90, from the one
    // that holds only the last, worth 20.
    assert!(even.does_win(&last));
    assert!(!last.does_win(&even));
}

#[test]
fn a_draw_on_points_is_no_win() {
    // One side takes castles 1 to 4 and 10, the other 5 to 9:
    // 2 * (1 + 2 + 3 + 4 + 10) = 40 against 2 * (5 + 6 + 7 + 8 + 9) = 70.
    let a = castle([10, 20, 30, 40, 40, 40, 40, 40, 40]);
    let b = castle([0, 0, 0, 0, 20, 40, 60, 80, 100]);
    assert_eq!(a.troops(), vec![10, 10, 10, 10, 0, 0, 0, 0, 0, 60]);
    assert_eq!(b.troops(), vec![0, 0, 0, 0, 20, 20, 20, 20, 20, 0]);
    assert!(!a.does_win(&b));
    assert!(b.does_win(&a));
}

#[test]
fn neighbors_move_one_cut_by_one() {
    let c = castle([10, 20, 30, 40, 50, 60, 70, 80, 90]);
    let around = c.neighbors();
    assert_eq!(around.len(), 18);
    assert_eq!(around[0].cuts(), [9, 20, 30, 40, 50, 60, 70, 80, 90]);
    assert_eq!(around[1].cuts(), [11, 20, 30, 40, 50, 60, 70, 80, 90]);
    assert_eq!(around[2].cuts(), [10, 19, 30, 40, 50, 60, 70, 80, 90]);
    assert_eq!(around[17].cuts(), [10, 20, 30, 40, 50, 60, 70, 80, 91]);
}

#[test]
fn neighbors_stay_in_range_and_in_order() {
    let c = castle([0, 0, 5, 5, 5, 6, 100, 100, 100]);
    let around = c.neighbors();
    // The two cuts at zero cannot go down, the three at a hundred
    // cannot go up.
    assert_eq!(around.len(), 13);
    assert_eq!(around[0].cuts(), [0, 1, 5, 5, 5, 6, 100, 100, 100]);
    assert_eq!(around[1].cuts(), [0, 1, 5, 5, 5, 6, 100, 100, 100]);
    assert_eq!(around[2].cuts(), [0, 0, 4, 5, 5, 6, 100, 100, 100]);
    assert_eq!(around[3].cuts(), [0, 0, 5, 5, 6, 6, 100, 100, 100]);
    assert_eq!(around[8].cuts(), [0, 0, 5, 5, 5, 5, 100, 100, 100]);
    assert_eq!(around[9].cuts(), [0, 0, 5, 5, 5, 7, 100, 100, 100]);
    assert_eq!(around[12].cuts(), [0, 0, 5, 5, 5, 6, 99, 100, 100]);
    for n in around.iter() {
        let cuts = n.cuts();
        assert!(cuts.windows(2).all(|w| w[0] <= w[1]));
        assert!(cuts.iter().all(|cut| *cut <= TROOPS));
    }
}

#[test]
fn different_castles_have_different_keys() {
    let a = castle([10, 20, 30, 40, 50, 60, 70, 80, 90]);
    let b = castle([10, 20, 30, 40, 50, 60, 70, 80, 91]);
    let c = castle([11, 20, 30, 40, 50, 60, 70, 80, 90]);
    assert_ne!(a.key(), b.key());
    assert_ne!(a.key(), c.key());
    assert_ne!(b.key(), c.key());
    assert_eq!(a.key(), castle([90, 80, 70, 60, 50, 40, 30, 20, 10]).key());
    assert_eq!(a.clone().key(), a.key());
    assert_eq!(Castle::default().key(), 0);
    assert_eq!(castle([0, 0, 0, 0, 0, 0, 0, 1, 2]).key(), 128 + 2);
    assert_eq!(castle([100; 9]).key(), ((1u64 << 63) - 1) / 127 * 100);
}

#[test]
fn random_castles_are_valid_and_differ() {
    let mut seen_nonzero = false;
    let mut distinct = std::collections::HashSet::new();
    for _ in 0..200 {
        let cuts = Castle::from_random().cuts();
        assert!(cuts.windows(2).all(|w| w[0] <= w[1]));
        assert!(cuts.iter().all(|cut| *cut < TROOPS));
        seen_nonzero = seen_nonzero || cuts.iter().any(|cut| *cut != 0);
        distinct.insert(cuts);
    }
    assert!(seen_nonzero);
    assert!(distinct.len() > 1);
}

#[test]
fn fitness_counts_the_samples_won() {
    let last = castle([0; 9]);
    let first = castle([100; 9]);
    let even = castle([10, 20, 30, 40, 50, 60, 70, 80, 90]);
    let mut searcher = CastleSearcher::from_samples(vec![last, first, even, first]);
    assert_eq!(searcher.sample_count(), 4);
    assert_eq!(searcher.test_on_data(&even), 3);
    assert_eq!(searcher.test_on_data(&last), 2);
    assert_eq!(searcher.test_on_data(&first), 0);
    assert_eq!(searcher.fitness_estimate(&even), Some(3));
    assert_eq!(searcher.fitness_estimate(&first), Some(0));
}

#[test]
fn a_searcher_without_samples_scores_zero() {
    let mut searcher = CastleSearcher::from_samples(Vec::new());
    assert_eq!(searcher.test_on_data(&Castle::default()), 0);
    assert_eq!(searcher.fitness_estimate(&Castle::default()), Some(0));
}

#[test]
fn no_castle_is_a_goal() {
    let searcher = CastleSearcher::from_samples(vec![castle([0; 9])]);
    assert!(!searcher.is_goal(&castle([100; 9]), 1));
    assert!(!searcher.is_goal(&Castle::default(), i64::MAX));
}

#[test]
fn the_searcher_remembers_the_latest_report() {
    let mut searcher = CastleSearcher::from_samples(Vec::new());
    assert_eq!(searcher.latest_report(), None);
    let even = castle([10, 20, 30, 40, 50, 60, 70, 80, 90]);
    searcher.output(&Castle::default(), 4);
    searcher.output(&even, 2);
    assert_eq!(searcher.latest_report(), Some((even, 2)));
}

#[test]
fn the_searcher_offers_the_moves_of_a_castle() {
    let searcher = CastleSearcher::from_samples(Vec::new());
    let even = castle([10, 20, 30, 40, 50, 60, 70, 80, 90]);
    assert_eq!(searcher.neighbors(&even), even.neighbors());
    let start = searcher.start().cuts();
    assert!(start.windows(2).all(|w| w[0] <= w[1]));
    assert!(start.iter().all(|cut| *cut < TROOPS));
}

#[test]
fn a_new_searcher_draws_its_samples() {
    let searcher = CastleSearcher::new();
    assert_eq!(searcher.sample_count(), N_TRAINING_SAMPLES);
    assert_eq!(N_TRAINING_SAMPLES, 100_000);
    // Against a hundred thousand random castles, spreading the troops
    // evenly wins more often than sending them all to one castle.
    let even = castle([10, 20, 30, 40, 50, 60, 70, 80, 90]);
    let first = castle([100; 9]);
    assert!(searcher.test_on_data(&even) > searcher.test_on_data(&first));
}
