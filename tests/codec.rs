use backward_analysis::filter_maker::{
    make_target_filter_10, make_target_filter_11, make_target_filter_12, make_target_filter_9,
    make_win_filter_10, make_win_filter_11, make_win_filter_12, make_win_filter_9, HashFilter,
};
use backward_analysis::hashutil::{coordinate_index, distance_a, Color, Dove, OnOff};

const ALL_PRESENT: u64 = 0x0FFF_0000_0000_0000;

/// Red boss at square 0, Red aniki at square 5, both present.
fn red_b0_a5() -> u64 {
    (1u64 << 59) | (1u64 << 57) | (5u64 << 36)
}

#[test]
fn hash_round_trip() {
    let mask = OnOff::new(ALL_PRESENT);
    assert_eq!(mask.mask(), 0xFFF);
    assert_eq!(mask.count_doves(), 12);
    let red = mask.project_on(Color::Red).mask();
    let green = mask.project_on(Color::Green).mask();
    assert_eq!(red | green, 0xFFF);
    assert_eq!(red, 0xAAA);
    assert_eq!(green, 0x555);
}

#[test]
fn presence_mask_ignores_coordinates() {
    let mask = OnOff::new(0xFFFF_FFFF_FFFF_FFFF);
    assert_eq!(mask.mask(), 0xFFF);
    assert_eq!(OnOff::new(0x0000_FFFF_FFFF_FFFF).mask(), 0);
    assert_eq!(OnOff::new(0x0000_FFFF_FFFF_FFFF).count_doves(), 0);
}

#[test]
fn contains_reads_each_presence_bit() {
    let mask = OnOff::new(1u64 << 59);
    assert!(mask.contains(Color::Red, Dove::B));
    assert!(!mask.contains(Color::Green, Dove::B));
    assert!(!mask.contains(Color::Red, Dove::A));
    let h = OnOff::new(1u64 << 48);
    assert!(h.contains(Color::Green, Dove::H));
    assert!(!h.contains(Color::Red, Dove::H));
}

#[test]
fn complement_swaps_colors() {
    let mask = OnOff::new((1u64 << 59) | (1u64 << 48));
    let swapped = mask.complement();
    assert_eq!(swapped.mask(), (1u64 << 10) | (1u64 << 1));
    assert!(swapped.contains(Color::Green, Dove::B));
    assert!(swapped.contains(Color::Red, Dove::H));
    assert_eq!(swapped.complement().mask(), mask.mask());
}

#[test]
fn projections_count_add_up() {
    let mask = OnOff::new(0x0B3A_0000_0000_0000);
    let red = mask.project_on(Color::Red);
    let green = mask.project_on(Color::Green);
    assert_eq!(red.mask() & green.mask(), 0);
    assert_eq!(red.count_doves() + green.count_doves(), mask.count_doves());
    assert_eq!(mask.count_doves(), 0xB3Au64.count_ones());
}

#[test]
fn coordinates_by_role_and_color() {
    let h = red_b0_a5() | (7u64 << 40) | (0xCu64 << 4);
    assert_eq!(coordinate_index(h, Color::Red, Dove::A), 5);
    assert_eq!(coordinate_index(h, Color::Red, Dove::B), 0);
    assert_eq!(coordinate_index(h, Color::Green, Dove::B), 7);
    assert_eq!(coordinate_index(h, Color::Red, Dove::H), 0xC);
}

#[test]
fn distance_boss_to_aniki() {
    assert_eq!(distance_a(red_b0_a5(), Color::Red), 2);
}

#[test]
fn distance_without_aniki_is_zero() {
    let h = (1u64 << 59) | (15u64 << 36);
    assert_eq!(distance_a(h, Color::Red), 0);
}

#[test]
fn distance_at_most_six() {
    // Green boss at square 0, Green aniki at square 15.
    let h = (1u64 << 58) | (1u64 << 56) | (15u64 << 32);
    assert_eq!(distance_a(h, Color::Green), 6);
    for b in 0..16u64 {
        for a in 0..16u64 {
            let h = (1u64 << 59) | (1u64 << 57) | (b << 44) | (a << 36);
            assert!(distance_a(h, Color::Red) <= 6);
        }
    }
}

#[test]
fn filter_nine_counts_modulo_three() {
    // Red doves: B, A, Y, M (4 doves); Green: B.
    let h = (1u64 << 59) | (1u64 << 57) | (1u64 << 55) | (1u64 << 53) | (1u64 << 58);
    assert!(make_win_filter_9(1).accepts(h));
    assert!(!make_win_filter_9(0).accepts(h));
    assert!(make_target_filter_9(1).accepts(h));
    assert!(!make_target_filter_9(2).accepts(h));
}

#[test]
fn filter_ten_reads_run_of_aligned_bits() {
    // Red H, T, M present (run of three): level (3 + 1) / 2 == 2.
    let h = (1u64 << 49) | (1u64 << 51) | (1u64 << 53);
    assert!(make_win_filter_10(2).accepts(h));
    assert!(!make_win_filter_10(1).accepts(h));
    // Green H absent: run of zero, level 0.
    assert!(make_target_filter_10(0).accepts(h));
    // Green H and T present: run of two, level 1.
    let g = (1u64 << 48) | (1u64 << 50);
    assert!(make_target_filter_10(1).accepts(g));
    assert!(!make_target_filter_10(0).accepts(g));
}

#[test]
fn filter_eleven_and_twelve_by_distance() {
    let h = red_b0_a5();
    assert!(make_win_filter_11(2).accepts(h));
    assert!(!make_win_filter_11(1).accepts(h));
    assert!(make_target_filter_11(0).accepts(h));
    assert!(make_win_filter_12(2).accepts(h));
    assert!(!make_win_filter_12(3).accepts(h));
    assert!(!make_target_filter_12(2).accepts(h));
    assert!(HashFilter::All.accepts(h));
}

#[test]
fn describe_lists_bits_from_the_top() {
    let mask = OnOff::new((1u64 << 59) | (1u64 << 48));
    assert_eq!(mask.describe(), "OnOff(100000000001)");
    assert_eq!(OnOff::new(0).describe(), "OnOff(000000000000)");
}
