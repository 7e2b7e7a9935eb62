use rlox::guessing::{do_guess_round, pick_secret, Reply, HIGHEST, LOWEST};

#[test]
fn smaller_guess_is_told_bigger() {
    assert_eq!(do_guess_round(Some(3), 50), (Reply::Bigger, false));
    assert_eq!(do_guess_round(Some(i32::MIN), 1), (Reply::Bigger, false));
}

#[test]
fn larger_guess_is_told_less() {
    assert_eq!(do_guess_round(Some(51), 50), (Reply::Less, false));
    assert_eq!(do_guess_round(Some(i32::MAX), 100), (Reply::Less, false));
}

#[test]
fn right_guess_wins() {
    assert_eq!(do_guess_round(Some(50), 50), (Reply::NiceJob, true));
}

#[test]
fn no_number_is_no_guess() {
    assert_eq!(do_guess_round(None, 50), (Reply::NotANumber, false));
}

#[test]
fn replies_have_their_words() {
    assert_eq!(Reply::NotANumber.text(), "Please enter a number.");
    assert_eq!(Reply::Bigger.text(), "Bigger.");
    assert_eq!(Reply::NiceJob.text(), "Nice job!");
    assert_eq!(Reply::Less.text(), "Less.");
}

#[test]
fn secret_lies_between_one_and_hundred() {
    assert_eq!((LOWEST, HIGHEST), (1, 100));
    let draws: Vec<i32> = (0..500).map(|_| pick_secret()).collect();
    assert!(draws.iter().all(|n| 1 <= *n && *n <= 100));
    assert!(draws.iter().any(|n| *n != draws[0]));
}
