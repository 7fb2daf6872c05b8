use backward_analysis::lose2::{calc_adjacents, decompose, get_shape, is_isolated, nums_to_bits};

fn bits_of(squares: &[usize]) -> u16 {
    squares.iter().fold(0u16, |b, &s| b | (1 << s))
}

#[test]
fn adjacents_of_a_corner() {
    assert_eq!(calc_adjacents(bits_of(&[0])), bits_of(&[1, 4, 5]));
}

#[test]
fn adjacents_of_a_center_square() {
    assert_eq!(calc_adjacents(bits_of(&[5])), bits_of(&[0, 1, 2, 4, 6, 8, 9, 10]));
}

#[test]
fn adjacents_do_not_wrap_rows() {
    assert_eq!(calc_adjacents(bits_of(&[3])), bits_of(&[2, 6, 7]));
    assert_eq!(calc_adjacents(bits_of(&[12])), bits_of(&[8, 9, 13]));
}

#[test]
fn isolated_doves() {
    assert!(!is_isolated(bits_of(&[0, 5])));
    assert!(is_isolated(bits_of(&[0, 2])));
    assert!(is_isolated(bits_of(&[0, 1, 15])));
    assert!(!is_isolated(0));
}

#[test]
fn decompose_with_walls() {
    // Full top row and second row: the field is 4 wide, so the sides are walls,
    // but nothing spans top to bottom.
    let bits = bits_of(&[0, 1, 2, 3, 4, 5, 6, 7]);
    let (surrounded, rest) = decompose(bits);
    assert_eq!(surrounded, 0);
    assert_eq!(rest, bits);
    // Every square taken: every dove is enclosed.
    let (surrounded, rest) = decompose(0xffff);
    assert_eq!(surrounded, 0xffff);
    assert_eq!(rest, 0);
}

#[test]
fn decompose_cross() {
    // Square 5 with its four neighbours 1, 4, 6, 9.
    let bits = bits_of(&[1, 4, 5, 6, 9]);
    let (surrounded, rest) = decompose(bits);
    assert_eq!(surrounded, bits_of(&[5]));
    assert_eq!(rest, bits_of(&[1, 4, 6, 9]));
}

#[test]
fn squares_to_bits() {
    assert_eq!(nums_to_bits(&[0, 5, 15]), bits_of(&[0, 5, 15]));
    assert_eq!(nums_to_bits(&[]), 0);
    assert_eq!(nums_to_bits(&[3, 3]), 8);
}

#[test]
fn shape_of_squares() {
    assert_eq!(get_shape(&[0, 6, 5]), (0, 2, 0, 1));
    assert_eq!(get_shape(&[9, 14, 15]), (1, 3, 2, 3));
    assert_eq!(get_shape(&[]), (3, 0, 3, 0));
}
