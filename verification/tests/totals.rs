use score_tally::ScoreStruct;

#[test]
fn new_totals_are_zero() {
    let stats = ScoreStruct::new();
    assert_eq!(stats.total(), 0);
    assert_eq!(stats.tests_completed(), 0);
    assert_eq!(stats.tests_missed(), 0);
}

#[test]
fn default_totals_are_zero() {
    let stats = ScoreStruct::default();
    assert_eq!(stats.total(), 0);
    assert_eq!(stats.tests_completed(), 0);
    assert_eq!(stats.tests_missed(), 0);
}

#[test]
fn score_adds_to_total_and_counts() {
    let mut stats = ScoreStruct::new();
    stats.add_score(10);
    stats.add_score(5);
    assert_eq!(stats.total(), 15);
    assert_eq!(stats.tests_completed(), 2);
    assert_eq!(stats.tests_missed(), 0);
}

#[test]
fn missed_test_counts_and_adds_nothing() {
    let mut stats = ScoreStruct::new();
    stats.missed_test();
    stats.missed_test();
    stats.missed_test();
    assert_eq!(stats.total(), 0);
    assert_eq!(stats.tests_completed(), 0);
    assert_eq!(stats.tests_missed(), 3);
}

#[test]
fn negative_scores_lower_the_total() {
    let mut stats = ScoreStruct::new();
    stats.add_score(4);
    stats.add_score(-7);
    assert_eq!(stats.total(), -3);
    assert_eq!(stats.tests_completed(), 2);
}

#[test]
fn total_goes_beyond_sixty_four_bits() {
    let mut stats = ScoreStruct::new();
    stats.add_score(i64::MAX);
    stats.add_score(i64::MAX);
    assert_eq!(stats.total(), 2 * (i64::MAX as i128));
    let mut stats = ScoreStruct::new();
    stats.add_score(i64::MIN);
    stats.add_score(i64::MIN);
    stats.add_score(i64::MIN);
    assert_eq!(stats.total(), 3 * (i64::MIN as i128));
    assert_eq!(stats.render(), "3 tests with a total score of -27670116110564327424. They missed 0 tests");
}

#[test]
fn nothing_recorded_is_reported_in_the_plural() {
    let stats = ScoreStruct::new();
    assert_eq!(stats.render(), "0 tests with a total score of 0. They missed 0 tests");
}

#[test]
fn one_completed_test_is_in_the_singular() {
    let mut stats = ScoreStruct::new();
    stats.add_score(12);
    assert_eq!(stats.render(), "1 test with a total score of 12. They missed 0 tests");
}

#[test]
fn one_missed_test_is_in_the_singular() {
    let mut stats = ScoreStruct::new();
    stats.missed_test();
    assert_eq!(stats.render(), "0 tests with a total score of 0. They missed 1 test");
}

#[test]
fn both_clauses_in_the_singular() {
    let mut stats = ScoreStruct::new();
    stats.add_score(-8);
    stats.missed_test();
    assert_eq!(stats.render(), "1 test with a total score of -8. They missed 1 test");
}

#[test]
fn several_tests_are_in_the_plural() {
    let mut stats = ScoreStruct::new();
    stats.add_score(10);
    stats.add_score(5);
    stats.missed_test();
    stats.missed_test();
    assert_eq!(stats.render(), "2 tests with a total score of 15. They missed 2 tests");
}

#[test]
fn eleven_is_in_the_plural() {
    let mut stats = ScoreStruct::new();
    for _ in 0..11 {
        stats.add_score(1);
        stats.missed_test();
    }
    assert_eq!(stats.render(), "11 tests with a total score of 11. They missed 11 tests");
}
