use backward_analysis::game::has_both_bosses;
use backward_analysis::hashutil::Color;
use backward_analysis::lose2::{
    boss_may_die, find_all_bits, get_canonical_bits, hot_bits, pack_lose2, pack_lose2_all,
    placement_orders,
};
use tokyodoves::analysis::{compare_board_value, BoardValue};
use tokyodoves::collections::BoardSet;
use tokyodoves::game::{GameRule, Judge};
use tokyodoves::{Action, BoardBuilder, Dove};

#[test]
fn hot_bits_lowest_first() {
    assert_eq!(hot_bits(0b1010_0001), vec![1, 0b10_0000, 0b1000_0000]);
    assert!(hot_bits(0).is_empty());
}

#[test]
fn canonical_bits_of_shapes() {
    // Two doves side by side anywhere give the same canonical mask.
    let a = get_canonical_bits(&[0, 1]);
    assert_eq!(a, get_canonical_bits(&[10, 11]));
    assert_eq!(a, get_canonical_bits(&[5, 9]));
    assert_eq!(a, 0b11);
    // A diagonal pair differs from a side-by-side pair.
    assert_ne!(get_canonical_bits(&[0, 5]), a);
    assert_eq!(get_canonical_bits(&[6, 9]), get_canonical_bits(&[0, 5]));
}

#[test]
fn shapes_of_two_doves() {
    let mut all = find_all_bits(2);
    all.sort();
    // A side-by-side pair and a diagonal pair.
    assert_eq!(all.len(), 2);
    assert!(all.contains(&0b11));
    let mut three = find_all_bits(3);
    three.sort();
    three.dedup();
    assert_eq!(three.len(), find_all_bits(3).len());
}

#[test]
fn placement_orders_count() {
    assert_eq!(placement_orders(0), vec![Vec::<usize>::new()]);
    assert_eq!(placement_orders(1).len(), 10);
    assert_eq!(placement_orders(2).len(), 90);
    assert!(placement_orders(11).is_empty());
}

#[test]
fn boss_escapes_with_room() {
    // Red boss at 0, Green boss at 5: Red's boss can step to a square with
    // at least two free sides.
    let h = (1u64 << 59) | (1u64 << 58) | (5u64 << 40);
    assert!(has_both_bosses(h));
    let board = BoardBuilder::from_u64(h).build_unchecked();
    let expected = !board
        .legal_actions(tokyodoves::Color::Red, true, true, true)
        .into_iter()
        .filter(|a| matches!(a, Action::Move(_, Dove::B, _)))
        .any(|a| board.perform_unchecked_copied(a).liberty_of_boss(tokyodoves::Color::Red) >= 2);
    assert_eq!(boss_may_die(h, Color::Red, true), expected);
    assert!(!boss_may_die(h, Color::Red, true));
    assert!(boss_may_die(0x1, Color::Red, true));
}

#[test]
fn lose2_of_a_small_shape() {
    // Two doves side by side: every boss placement leaves the boss room.
    let orders = placement_orders(0);
    let mut pool = BoardSet::new();
    pack_lose2(&mut pool, 0b11, false, &orders);
    assert!(pool.is_empty());
    let all = pack_lose2_all(&[0b11, 0b10_0001], false, &orders);
    assert!(all.is_empty());
}

#[test]
fn lose2_boards_are_lost_in_two() {
    let shapes = find_all_bits(4);
    let orders = placement_orders(2);
    let pool = pack_lose2_all(&shapes, false, &orders);
    let rule = GameRule::new(true).with_suicide_atk_judge(Judge::NextWins);
    for h in pool.raw().iter() {
        let board = BoardBuilder::from_u64(h).build_unchecked();
        assert_eq!(board.count_doves_on_field(), 4);
        let cmp = compare_board_value(board, BoardValue::lose(2).unwrap(), tokyodoves::Color::Red, rule);
        assert!(matches!(cmp, Ok(std::cmp::Ordering::Equal)));
    }
}
