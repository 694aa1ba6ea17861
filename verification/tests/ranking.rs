use ceridwen::ranking::Scores;

#[test]
fn scores_add_up_for_each_page() {
    let scores = Scores::new().add(5, 2).add(7, 1).add(5, 3);
    assert_eq!(scores.ranked(), vec![(5, 5), (7, 1)]);
}

#[test]
fn ranking_of_no_scores() {
    assert_eq!(Scores::new().ranked(), Vec::<(u64, u64)>::new());
}

#[test]
fn ranking_puts_the_lower_id_first_among_equals() {
    let scores = Scores::new().add(9, 4).add(3, 4).add(6, 4).add(1, 2).add(2, 8);
    assert_eq!(scores.ranked(), vec![(2, 8), (3, 4), (6, 4), (9, 4), (1, 2)]);
}

#[test]
fn ranking_keeps_the_hundred_best() {
    let mut scores = Scores::new();
    for id in 0..250u64 {
        scores = scores.add(id, (id * 37) % 101);
    }
    let ranked = scores.ranked();
    assert_eq!(ranked.len(), 100);
    let mut expected: Vec<(u64, u64)> = (0..250u64).map(|id| (id, (id * 37) % 101)).collect();
    expected.sort_by(|a, b| b.1.cmp(&a.1).then(a.0.cmp(&b.0)));
    expected.truncate(100);
    assert_eq!(ranked, expected);
}

#[test]
fn a_score_stops_at_the_highest_number() {
    let scores = Scores::new().add(1, u64::MAX - 1).add(1, 5);
    assert_eq!(scores.ranked(), vec![(1, u64::MAX)]);
}
