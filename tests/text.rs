use exercises::high_scores::HighScores;
use exercises::proverb::build_proverb;

#[test]
fn proverb_of_nothing_is_empty() {
    assert_eq!(build_proverb(&[]), "");
}

#[test]
fn proverb_of_one_item() {
    assert_eq!(build_proverb(&["nail"]), "And all for the want of a nail.");
}

#[test]
fn proverb_of_three_items() {
    let expected = "For want of a nail the shoe was lost.\n\
                    For want of a shoe the horse was lost.\n\
                    And all for the want of a nail.";
    assert_eq!(build_proverb(&["nail", "shoe", "horse"]), expected);
}

#[test]
fn scores_are_kept_in_order() {
    let s = [30, 50, 20, 70];
    let h = HighScores::new(&s);
    assert_eq!(h.scores(), &[30, 50, 20, 70]);
    assert_eq!(h.latest(), Some(70));
    assert_eq!(h.personal_best(), Some(70));
}

#[test]
fn no_scores() {
    let h = HighScores::new(&[]);
    assert_eq!(h.latest(), None);
    assert_eq!(h.personal_best(), None);
    assert!(h.personal_top_three().is_empty());
}

#[test]
fn top_three_of_many() {
    let s = [10, 30, 90, 30, 100, 20, 10, 0, 30, 40, 40, 70, 70];
    let h = HighScores::new(&s);
    assert_eq!(h.personal_top_three(), vec![100, 90, 70]);
    assert_eq!(h.latest(), Some(70));
    assert_eq!(h.personal_best(), Some(100));
}

#[test]
fn top_three_with_ties_and_few_scores() {
    assert_eq!(HighScores::new(&[40, 20, 40, 30]).personal_top_three(), vec![40, 40, 30]);
    assert_eq!(HighScores::new(&[30, 70]).personal_top_three(), vec![70, 30]);
    assert_eq!(HighScores::new(&[40]).personal_top_three(), vec![40]);
}
