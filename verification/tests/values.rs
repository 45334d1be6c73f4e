use four_in_a_row::ordering::rank;
use four_in_a_row::player::{next_turn, Player};
use four_in_a_row::score::Score;

#[test]
fn ranking_is_sorted_and_stable() {
    let keys = vec![3, 7, 3, 9, 7];
    assert_eq!(rank(&keys, true), vec![3, 1, 4, 0, 2]);
    assert_eq!(rank(&keys, false), vec![0, 2, 1, 4, 3]);
    assert_eq!(rank(&vec![], true), Vec::<usize>::new());
    assert_eq!(rank(&vec![5], false), vec![0]);
    assert_eq!(rank(&vec![1, 1, 1], true), vec![0, 1, 2]);
    assert_eq!(rank(&vec![i64::MAX, i64::MIN, 0], false), vec![1, 2, 0]);
}

#[test]
fn scores_are_ordered_with_the_decided_games_at_the_ends() {
    let low = Score::NegInf;
    let high = Score::PosInf;
    let three = Score::Finite(3);
    let minus = Score::Finite(-8);
    assert!(low.less_than(&minus));
    assert!(minus.less_than(&three));
    assert!(three.less_than(&high));
    assert!(!three.less_than(&three));
    assert!(!high.less_than(&low));
    assert!(low.less_than(&Score::Finite(i32::MIN)));
    assert!(Score::Finite(i32::MAX).less_than(&high));
    assert_eq!(three.larger(minus), three);
    assert_eq!(three.smaller(minus), minus);
    assert_eq!(low.larger(three), three);
    assert_eq!(high.smaller(three), three);
    assert_eq!(high.larger(three), high);
    assert_eq!(low.smaller(three), low);
    assert_eq!(three.sort_key(), 3);
    assert_eq!(low.sort_key(), i64::MIN);
    assert_eq!(high.sort_key(), i64::MAX);
}

#[test]
fn shifting_moves_finite_scores_only() {
    assert_eq!(Score::Finite(3).shifted(4), Score::Finite(7));
    assert_eq!(Score::Finite(3).shifted(-4), Score::Finite(-1));
    assert_eq!(Score::PosInf.shifted(-4), Score::PosInf);
    assert_eq!(Score::NegInf.shifted(16), Score::NegInf);
    assert!(Score::PosInf.is_decided());
    assert!(Score::NegInf.is_decided());
    assert!(!Score::Finite(0).is_decided());
}

#[test]
fn players_take_turns() {
    assert_eq!(next_turn(Player::P1), Player::P2);
    assert_eq!(next_turn(Player::P2), Player::P1);
}
