//! Shapes of doves on the 4x4 field, as 16-bit masks (bit `4 * row +
//! column`), used to enumerate the positions lost in two plies.

use vstd::prelude::*;
use itertools::Itertools;
use tokyodoves::game::{GameRule, Judge};
use tokyodoves::collections::BoardSet;
use crate::board_set::{contents, insert};
use crate::game::{bosses_on_field, forward_actions, invariant_hash, performed};
use crate::hashutil::Color;

verus! {

/// Square `p` holds a dove.
pub open spec fn occupied(bits: u16, p: u16) -> bool {
    p < 16 && (bits >> p) & 1u16 == 1u16
}

/// Some square a king's step away from `q` holds a dove.
pub open spec fn neighbour_occupied(bits: u16, q: u16) -> bool {
    let col = q % 4;
    let row = q / 4;
    (row > 0 && col > 0 && occupied(bits, (q - 5) as u16)) || (row > 0 && occupied(
        bits,
        (q - 4) as u16,
    )) || (row > 0 && col < 3 && occupied(bits, (q - 3) as u16)) || (col > 0 && occupied(
        bits,
        (q - 1) as u16,
    )) || (col < 3 && occupied(bits, (q + 1) as u16)) || (row < 3 && col > 0 && occupied(
        bits,
        (q + 3) as u16,
    )) || (row < 3 && occupied(bits, (q + 4) as u16)) || (row < 3 && col < 3 && occupied(
        bits,
        (q + 5) as u16,
    ))
}

/// The squares next to (a king's step from) some dove of `bits`.
pub fn calc_adjacents(bits: u16) -> (r: u16)
    ensures
        forall|q: u16| q < 16 ==> #[trigger] occupied(r, q) == neighbour_occupied(bits, q),
{
    let r: u16 = 0xeeee;
    let l: u16 = 0x7777;
    let mut adj: u16 = 0;
    adj = adj | ((bits & r) >> 5u16);
    adj = adj | (bits >> 4u16);
    adj = adj | ((bits & l) >> 3u16);
    adj = adj | ((bits & r) >> 1u16);
    adj = adj | ((bits & l) << 1u16);
    adj = adj | ((bits & r) << 3u16);
    adj = adj | (bits << 4u16);
    adj = adj | ((bits & l) << 5u16);
    assert forall|q: u16| q < 16 implies #[trigger] occupied(adj, q) == neighbour_occupied(
        bits,
        q,
    ) by {
        assert(occupied(adj, q) == neighbour_occupied(bits, q)) by (bit_vector)
            requires
                q < 16,
                adj == 0u16 | ((bits & 0xeeeeu16) >> 5u16) | (bits >> 4u16) | ((bits & 0x7777u16)
                    >> 3u16) | ((bits & 0xeeeeu16) >> 1u16) | ((bits & 0x7777u16) << 1u16) | ((
                bits & 0xeeeeu16) << 3u16) | (bits << 4u16) | ((bits & 0x7777u16) << 5u16),
        ;
    }
    adj
}

/// Some dove of `bits` has no dove next to it.
pub fn is_isolated(bits: u16) -> (r: bool)
    ensures
        r == exists|q: u16| q < 16 && #[trigger] occupied(bits, q) && !neighbour_occupied(bits, q),
{
    let adj = calc_adjacents(bits);
    let mut q: u16 = 0;
    while q < 16
        invariant
            q <= 16,
            forall|p: u16| p < 16 ==> #[trigger] occupied(adj, p) == neighbour_occupied(bits, p),
            forall|p: u16| p < q ==> !(#[trigger] occupied(bits, p) && !neighbour_occupied(bits, p)),
        decreases 16 - q,
    {
        assert((adj >> q) & 1 == 0 || (adj >> q) & 1 == 1) by (bit_vector);
        if (bits >> q) & 1 == 1 && (adj >> q) & 1 == 0 {
            assert(occupied(bits, q) && !occupied(adj, q));
            return true;
        }
        assert(occupied(adj, q) == neighbour_occupied(bits, q));
        assert(!(occupied(bits, q) && !neighbour_occupied(bits, q)));
        q = q + 1;
    }
    false
}

/// Doves in both the leftmost and the rightmost column: the field cannot
/// widen, so its sides are walls.
pub open spec fn wall_ew(bits: u16) -> bool {
    bits & 0x1111u16 != 0 && bits & 0x8888u16 != 0
}

/// Doves in both the top and the bottom row: top and bottom are walls.
pub open spec fn wall_ns(bits: u16) -> bool {
    bits & 0xf000u16 != 0 && bits & 0x000fu16 != 0
}

/// Each of the four sides of square `q` holds a dove or a wall.
pub open spec fn enclosed(bits: u16, q: u16) -> bool {
    let col = q % 4;
    let row = q / 4;
    &&& if col < 3 {
        occupied(bits, (q + 1) as u16)
    } else {
        wall_ew(bits)
    }
    &&& if col > 0 {
        occupied(bits, (q - 1) as u16)
    } else {
        wall_ew(bits)
    }
    &&& if row > 0 {
        occupied(bits, (q - 4) as u16)
    } else {
        wall_ns(bits)
    }
    &&& if row < 3 {
        occupied(bits, (q + 4) as u16)
    } else {
        wall_ns(bits)
    }
}

/// Splits the doves of `bits` into those enclosed on all four sides and
/// the others.
pub fn decompose(bits: u16) -> (r: (u16, u16))
    ensures
        forall|q: u16|
            q < 16 ==> #[trigger] occupied(r.0, q) == (occupied(bits, q) && enclosed(bits, q)),
        forall|q: u16|
            q < 16 ==> #[trigger] occupied(r.1, q) == (occupied(bits, q) && !enclosed(bits, q)),
{
    let edge_e: u16 = 0x1111;
    let edge_w: u16 = 0x8888;
    let edge_n: u16 = 0xf000;
    let edge_s: u16 = 0x000f;
    let is_wall_ew = (bits & edge_e) != 0 && (bits & edge_w) != 0;
    let is_wall_ns = (bits & edge_n) != 0 && (bits & edge_s) != 0;
    let mut bits_e = (bits & !edge_e) >> 1u16;
    if is_wall_ew {
        bits_e = bits_e | edge_w;
    }
    let mut bits_w = (bits & !edge_w) << 1u16;
    if is_wall_ew {
        bits_w = bits_w | edge_e;
    }
    let mut bits_n = (bits & !edge_n) << 4u16;
    if is_wall_ns {
        bits_n = bits_n | edge_s;
    }
    let mut bits_s = (bits & !edge_s) >> 4u16;
    if is_wall_ns {
        bits_s = bits_s | edge_n;
    }
    let surrounded = bits & bits_n & bits_e & bits_w & bits_s;
    let not_surrounded = bits & !surrounded;
    assert forall|q: u16|
        #![trigger occupied(surrounded, q)]
        #![trigger occupied(not_surrounded, q)]
        q < 16 implies occupied(surrounded, q) == (occupied(bits, q) && enclosed(bits, q))
            && occupied(not_surrounded, q) == (occupied(bits, q) && !enclosed(bits, q)) by {
        let we = wall_ew(bits);
        let ns = wall_ns(bits);
        assert(occupied(surrounded, q) == (occupied(bits, q) && enclosed(bits, q))
            && occupied(not_surrounded, q) == (occupied(bits, q) && !enclosed(bits, q)))
            by (bit_vector)
            requires
                q < 16,
                we == (bits & 0x1111u16 != 0 && bits & 0x8888u16 != 0),
                ns == (bits & 0xf000u16 != 0 && bits & 0x000fu16 != 0),
                we ==> bits_e == ((bits & !0x1111u16) >> 1u16) | 0x8888u16,
                !we ==> bits_e == ((bits & !0x1111u16) >> 1u16),
                we ==> bits_w == ((bits & !0x8888u16) << 1u16) | 0x1111u16,
                !we ==> bits_w == ((bits & !0x8888u16) << 1u16),
                ns ==> bits_n == ((bits & !0xf000u16) << 4u16) | 0x000fu16,
                !ns ==> bits_n == ((bits & !0xf000u16) << 4u16),
                ns ==> bits_s == ((bits & !0x000fu16) >> 4u16) | 0xf000u16,
                !ns ==> bits_s == ((bits & !0x000fu16) >> 4u16),
                surrounded == bits & bits_n & bits_e & bits_w & bits_s,
                not_surrounded == bits & !surrounded,
        ;
    }
    (surrounded, not_surrounded)
}

/// The mask with a bit set for each square of `s`.
pub open spec fn mask_of(s: Seq<usize>) -> u16
    decreases s.len(),
{
    if s.len() == 0 {
        0
    } else {
        mask_of(s.drop_last()) | (1u16 << (s.last() as u16))
    }
}

/// The mask with a dove on each square of `nums`.
pub fn nums_to_bits(nums: &[usize]) -> (r: u16)
    requires
        forall|i: int| 0 <= i < nums@.len() ==> #[trigger] nums@[i] < 16,
    ensures
        r == mask_of(nums@),
        forall|q: u16| q < 16 ==> #[trigger] occupied(r, q) == nums@.contains(q as usize),
        forall|q: u16| q >= 16 ==> !#[trigger] occupied(r, q),
{
    let mut bits: u16 = 0;
    let mut i: usize = 0;
    assert forall|q: u16| q < 16 implies !#[trigger] occupied(bits, q) by {
        assert(!occupied(0u16, q)) by (bit_vector);
    }
    while i < nums.len()
        invariant
            i <= nums@.len(),
            forall|j: int| 0 <= j < nums@.len() ==> #[trigger] nums@[j] < 16,
            bits == mask_of(nums@.subrange(0, i as int)),
            forall|q: u16|
                q < 16 ==> #[trigger] occupied(bits, q) == nums@.subrange(0, i as int).contains(
                    q as usize,
                ),
        decreases nums@.len() - i,
    {
        let n = nums[i] as u16;
        let ghost old_bits = bits;
        bits = bits | (1u16 << n);
        assert(nums@.subrange(0, i + 1).drop_last() == nums@.subrange(0, i as int));
        assert forall|q: u16| q < 16 implies #[trigger] occupied(bits, q) == nums@.subrange(
            0,
            i + 1,
        ).contains(q as usize) by {
            assert(occupied(bits, q) == (occupied(old_bits, q) || q == n)) by (bit_vector)
                requires
                    q < 16,
                    n < 16,
                    bits == old_bits | (1u16 << n),
            ;
            assert(nums@.subrange(0, i + 1) == nums@.subrange(0, i as int).push(nums@[i as int]));
            if q == n {
                assert(nums@.subrange(0, i + 1)[i as int] == q as usize);
            }
            if nums@.subrange(0, i + 1).contains(q as usize) {
                let k = choose|k: int|
                    0 <= k < i + 1 && #[trigger] nums@.subrange(0, i + 1)[k] == q as usize;
                if k < i {
                    assert(nums@.subrange(0, i as int)[k] == q as usize);
                }
            }
        }
        i = i + 1;
    }
    assert(nums@.subrange(0, nums@.len() as int) == nums@);
    bits
}

pub open spec fn hmin_of(s: Seq<usize>) -> usize
    decreases s.len(),
{
    if s.len() == 0 {
        3
    } else if s.last() % 4 < hmin_of(s.drop_last()) {
        s.last() % 4
    } else {
        hmin_of(s.drop_last())
    }
}

pub open spec fn hmax_of(s: Seq<usize>) -> usize
    decreases s.len(),
{
    if s.len() == 0 {
        0
    } else if s.last() % 4 > hmax_of(s.drop_last()) {
        s.last() % 4
    } else {
        hmax_of(s.drop_last())
    }
}

pub open spec fn vmin_of(s: Seq<usize>) -> usize
    decreases s.len(),
{
    if s.len() == 0 {
        3
    } else if s.last() / 4 < vmin_of(s.drop_last()) {
        s.last() / 4
    } else {
        vmin_of(s.drop_last())
    }
}

pub open spec fn vmax_of(s: Seq<usize>) -> usize
    decreases s.len(),
{
    if s.len() == 0 {
        0
    } else if s.last() / 4 > vmax_of(s.drop_last()) {
        s.last() / 4
    } else {
        vmax_of(s.drop_last())
    }
}

/// The smallest rectangle holding the squares `nums`: `(hmin, hmax, vmin,
/// vmax)` over the columns `n % 4` and rows `n / 4`, starting from
/// `(3, 0, 3, 0)`.
pub fn get_shape(nums: &[usize]) -> (r: (usize, usize, usize, usize))
    ensures
        r == (hmin_of(nums@), hmax_of(nums@), vmin_of(nums@), vmax_of(nums@)),
        r.0 <= 3 && forall|i: int| 0 <= i < nums@.len() ==> r.0 <= #[trigger] nums@[i] % 4,
        r.0 == 3 || exists|i: int| 0 <= i < nums@.len() && r.0 == #[trigger] nums@[i] % 4,
        forall|i: int| 0 <= i < nums@.len() ==> #[trigger] nums@[i] % 4 <= r.1,
        r.1 == 0 || exists|i: int| 0 <= i < nums@.len() && r.1 == #[trigger] nums@[i] % 4,
        r.2 <= 3 && forall|i: int| 0 <= i < nums@.len() ==> r.2 <= #[trigger] nums@[i] / 4,
        r.2 == 3 || exists|i: int| 0 <= i < nums@.len() && r.2 == #[trigger] nums@[i] / 4,
        forall|i: int| 0 <= i < nums@.len() ==> #[trigger] nums@[i] / 4 <= r.3,
        r.3 == 0 || exists|i: int| 0 <= i < nums@.len() && r.3 == #[trigger] nums@[i] / 4,
{
    let (mut hmin, mut hmax, mut vmin, mut vmax): (usize, usize, usize, usize) = (3, 0, 3, 0);
    let mut k: usize = 0;
    while k < nums.len()
        invariant
            k <= nums@.len(),
            hmin == hmin_of(nums@.subrange(0, k as int)),
            hmax == hmax_of(nums@.subrange(0, k as int)),
            vmin == vmin_of(nums@.subrange(0, k as int)),
            vmax == vmax_of(nums@.subrange(0, k as int)),
            hmin <= 3 && forall|i: int| 0 <= i < k ==> hmin <= #[trigger] nums@[i] % 4,
            hmin == 3 || exists|i: int| 0 <= i < k && hmin == #[trigger] nums@[i] % 4,
            forall|i: int| 0 <= i < k ==> #[trigger] nums@[i] % 4 <= hmax,
            hmax == 0 || exists|i: int| 0 <= i < k && hmax == #[trigger] nums@[i] % 4,
            vmin <= 3 && forall|i: int| 0 <= i < k ==> vmin <= #[trigger] nums@[i] / 4,
            vmin == 3 || exists|i: int| 0 <= i < k && vmin == #[trigger] nums@[i] / 4,
            forall|i: int| 0 <= i < k ==> #[trigger] nums@[i] / 4 <= vmax,
            vmax == 0 || exists|i: int| 0 <= i < k && vmax == #[trigger] nums@[i] / 4,
        decreases nums@.len() - k,
    {
        let n = nums[k];
        assert(nums@.subrange(0, k + 1).drop_last() == nums@.subrange(0, k as int));
        let (x, y) = (n % 4, n / 4);
        if x < hmin {
            hmin = x;
        }
        if x > hmax {
            hmax = x;
        }
        if y < vmin {
            vmin = y;
        }
        if y > vmax {
            vmax = y;
        }
        k = k + 1;
    }
    assert(nums@.subrange(0, nums@.len() as int) == nums@);
    (hmin, hmax, vmin, vmax)
}

/// `s` is strictly increasing.
pub open spec fn increasing(s: Seq<usize>) -> bool {
    forall|i: int, j: int| 0 <= i < j < s.len() ==> s[i] < s[j]
}

/// `s` has `k` entries below `n`, no two equal.
pub open spec fn arrangement(s: Seq<usize>, n: nat, k: nat) -> bool {
    s.len() == k && s.no_duplicates() && forall|i: int| 0 <= i < s.len() ==> #[trigger] s[i] < n
}

/// No two entries of `r` are the same sequence.
pub open spec fn distinct_seqs(r: Seq<Vec<usize>>) -> bool {
    forall|i: int, j: int| 0 <= i < j < r.len() ==> r[i]@ != r[j]@
}

/// Relies on itertools' `combinations` on `0..n`: each `k`-subset once,
/// as an increasing sequence.
#[verifier::external_body]
fn combinations(n: usize, k: usize) -> (r: Vec<Vec<usize>>)
    ensures
        forall|i: int|
            0 <= i < r@.len() ==> arrangement(#[trigger] r@[i]@, n as nat, k as nat) && increasing(
                r@[i]@,
            ),
        forall|s: Seq<usize>|
            arrangement(s, n as nat, k as nat) && increasing(s) ==> exists|i: int|
                0 <= i < r@.len() && #[trigger] r@[i]@ == s,
        distinct_seqs(r@),
{
    (0..n).combinations(k).collect()
}

/// Relies on itertools' `permutations` on `0..n`: each ordered choice of
/// `k` distinct values once.
#[verifier::external_body]
fn permutations(n: usize, k: usize) -> (r: Vec<Vec<usize>>)
    ensures
        forall|i: int| 0 <= i < r@.len() ==> arrangement(#[trigger] r@[i]@, n as nat, k as nat),
        forall|s: Seq<usize>|
            arrangement(s, n as nat, k as nat) ==> exists|i: int|
                0 <= i < r@.len() && #[trigger] r@[i]@ == s,
        distinct_seqs(r@),
{
    (0..n).permutations(k).collect()
}

/// Where square `pos` of a `vsize` x `hsize` rectangle goes under the
/// `index`-th of its eight congruences.
pub uninterp spec fn congruent(vsize: nat, hsize: nat, index: nat, pos: nat) -> nat;

/// Relies on `PositionMapper::try_create` (which accepts sizes 1..=4) and
/// `PositionMapper::map`, whose table holds squares 0..16.
#[verifier::external_body]
fn congruent_position(vsize: usize, hsize: usize, index: usize, pos: usize) -> (r: usize)
    requires
        1 <= vsize <= 4,
        1 <= hsize <= 4,
    ensures
        r == congruent(vsize as nat, hsize as nat, index as nat, pos as nat),
        r < 16,
{
    tokyodoves::analysis::PositionMapper::try_create(vsize, hsize).unwrap().map(index, pos)
}

/// The encoding of the board whose doves stand on the one-hot squares
/// `positions` (Red's B, A, Y, M, T, H, then Green's; 0 for a dove in hand).
pub uninterp spec fn board_of_bits(positions: Seq<u16>) -> u64;

/// Relies on `BoardBuilder::from_u16_bits` and `Board::to_u64`.
#[verifier::external_body]
fn board_from_bits(positions: &Vec<u16>) -> (r: u64)
    requires
        positions@.len() == 12,
    ensures
        r == board_of_bits(positions@),
{
    let p = positions;
    let bits = [[p[0], p[1], p[2], p[3], p[4], p[5]], [p[6], p[7], p[8], p[9], p[10], p[11]]];
    tokyodoves::BoardBuilder::from_u16_bits(bits).build_unchecked().to_u64()
}

/// The number of free sides of `player`'s boss.
pub uninterp spec fn boss_liberty(board: u64, player: Color) -> nat;

/// Relies on `Board::liberty_of_boss`, which needs the boss on the field.
#[verifier::external_body]
fn liberty_of_boss(board: u64, player: Color) -> (r: usize)
    requires
        bosses_on_field(board),
    ensures
        r == boss_liberty(board, player),
{
    let p = match player {
        Color::Red => tokyodoves::Color::Red,
        Color::Green => tokyodoves::Color::Green,
    };
    tokyodoves::BoardBuilder::from_u64(board).build_unchecked().liberty_of_boss(p)
}

/// `action` moves a boss.
pub uninterp spec fn moves_boss(action: tokyodoves::Action) -> bool;

/// Relies on the variants of `tokyodoves::Action`: a `Move` of `Dove::B`.
#[verifier::external_body]
fn is_boss_move(action: tokyodoves::Action) -> (r: bool)
    ensures
        r == moves_boss(action),
{
    matches!(action, tokyodoves::Action::Move(_, tokyodoves::Dove::B, _))
}

/// Red to move on `board` loses in exactly two plies, under the rules with
/// removes where both bosses surrounded at once count as a win for the
/// player who moved (`both_is_win`) or for the next one.
pub uninterp spec fn lose_in_2(board: u64, both_is_win: bool) -> bool;

/// Relies on `analysis::compare_board_value` against `BoardValue::lose(2)`.
#[verifier::external_body]
fn is_lose_in_2(board: u64, both_is_win: bool) -> (r: bool)
    requires
        bosses_on_field(board),
    ensures
        r == lose_in_2(board, both_is_win),
{
    let judge = if both_is_win { Judge::LastWins } else { Judge::NextWins };
    let rule = GameRule::new(true).with_suicide_atk_judge(judge);
    let b = tokyodoves::BoardBuilder::from_u64(board).build_unchecked();
    let value = tokyodoves::analysis::BoardValue::lose(2).unwrap();
    let cmp = tokyodoves::analysis::compare_board_value(b, value, tokyodoves::Color::Red, rule);
    matches!(cmp, Ok(std::cmp::Ordering::Equal))
}

/// One-hot masks of the squares of `bits` below `k`, lowest first.
pub open spec fn hot_upto(bits: u16, k: nat) -> Seq<u16>
    decreases k,
{
    if k == 0 {
        Seq::empty()
    } else if occupied(bits, (k - 1) as u16) {
        hot_upto(bits, (k - 1) as nat).push(1u16 << ((k - 1) as u16))
    } else {
        hot_upto(bits, (k - 1) as nat)
    }
}

/// The one-hot masks of the doves of `bits`, lowest square first.
pub fn hot_bits(bits: u16) -> (r: Vec<u16>)
    ensures
        r@ == hot_upto(bits, 16),
{
    let mut units: Vec<u16> = Vec::new();
    let mut q: u16 = 0;
    while q < 16
        invariant
            q <= 16,
            units@ == hot_upto(bits, q as nat),
        decreases 16 - q,
    {
        assert((bits >> q) & 1 == 0 || (bits >> q) & 1 == 1) by (bit_vector);
        if (bits >> q) & 1 == 1 {
            units.push(1u16 << q);
        }
        q = q + 1;
    }
    units
}

/// Squares `nums` moved so that their rectangle starts at square 0.
pub open spec fn aligned(nums: Seq<usize>) -> Seq<usize> {
    Seq::new(
        nums.len(),
        |i: int| (nums[i] - (hmin_of(nums) + 4 * vmin_of(nums))) as usize,
    )
}

/// The squares `s` under the `index`-th congruence of a `vsize` x `hsize`
/// rectangle.
pub open spec fn congruent_image(s: Seq<usize>, vsize: nat, hsize: nat, index: nat) -> Seq<usize> {
    Seq::new(s.len(), |i: int| congruent(vsize, hsize, index, s[i] as nat) as usize)
}

/// The least mask among the first `k` congruent images of `s`.
pub open spec fn least_image(s: Seq<usize>, vsize: nat, hsize: nat, k: nat) -> u16
    decreases k,
{
    if k == 0 {
        0xffffu16
    } else {
        let m = mask_of(congruent_image(s, vsize, hsize, (k - 1) as nat));
        let rest = least_image(s, vsize, hsize, (k - 1) as nat);
        if m < rest {
            m
        } else {
            rest
        }
    }
}

/// The canonical mask of the shape `nums`: the least mask among its eight
/// congruent placements in the corner of the field.
pub open spec fn canonical_bits(nums: Seq<usize>) -> u16 {
    least_image(
        aligned(nums),
        (vmax_of(nums) - vmin_of(nums) + 1) as nat,
        (hmax_of(nums) - hmin_of(nums) + 1) as nat,
        8,
    )
}

/// The canonical mask of the shape of the squares `nums`.
pub fn get_canonical_bits(nums: &[usize]) -> (r: u16)
    requires
        nums@.len() > 0,
        forall|i: int| 0 <= i < nums@.len() ==> #[trigger] nums@[i] < 16,
    ensures
        r == canonical_bits(nums@),
{
    let (hmin, hmax, vmin, vmax) = get_shape(nums);
    proof {
        assert(nums@[0] % 4 <= hmax && hmin <= nums@[0] % 4);
        assert(nums@[0] / 4 <= vmax && vmin <= nums@[0] / 4);
        if hmax != 0 {
            let i = choose|i: int| 0 <= i < nums@.len() && hmax == #[trigger] nums@[i] % 4;
        }
        if vmax != 0 {
            let i = choose|i: int| 0 <= i < nums@.len() && vmax == #[trigger] nums@[i] / 4;
            assert(nums@[i] < 16);
        }
    }
    let idx_shift = hmin + 4 * vmin;
    let mut shifted: Vec<usize> = Vec::new();
    let mut i: usize = 0;
    while i < nums.len()
        invariant
            i <= nums@.len(),
            hmin == hmin_of(nums@),
            vmin == vmin_of(nums@),
            idx_shift == hmin + 4 * vmin,
            forall|j: int| 0 <= j < nums@.len() ==> hmin <= #[trigger] nums@[j] % 4,
            forall|j: int| 0 <= j < nums@.len() ==> vmin <= #[trigger] nums@[j] / 4,
            shifted@ == aligned(nums@).subrange(0, i as int),
        decreases nums@.len() - i,
    {
        let n = nums[i];
        assert(n >= idx_shift) by {
            assert(n % 4 >= hmin && n / 4 >= vmin);
        }
        shifted.push(n - idx_shift);
        i = i + 1;
        assert(shifted@ =~= aligned(nums@).subrange(0, i as int));
    }
    assert(shifted@ =~= aligned(nums@));
    let hsize = hmax - hmin + 1;
    let vsize = vmax - vmin + 1;
    let mut bits: u16 = 0xffff;
    let mut idx: usize = 0;
    while idx < 8
        invariant
            idx <= 8,
            1 <= vsize <= 4,
            1 <= hsize <= 4,
            shifted@ == aligned(nums@),
            bits == least_image(shifted@, vsize as nat, hsize as nat, idx as nat),
        decreases 8 - idx,
    {
        let mut image: Vec<usize> = Vec::new();
        let mut j: usize = 0;
        while j < shifted.len()
            invariant
                j <= shifted@.len(),
                1 <= vsize <= 4,
                1 <= hsize <= 4,
                idx < 8,
                image@ == congruent_image(shifted@, vsize as nat, hsize as nat, idx as nat).subrange(
                    0,
                    j as int,
                ),
                forall|k: int| 0 <= k < j ==> #[trigger] image@[k] < 16,
            decreases shifted@.len() - j,
        {
            let p = congruent_position(vsize, hsize, idx, shifted[j]);
            image.push(p);
            j = j + 1;
            assert(image@ =~= congruent_image(shifted@, vsize as nat, hsize as nat, idx as nat).subrange(
                0,
                j as int,
            ));
        }
        assert(image@ =~= congruent_image(shifted@, vsize as nat, hsize as nat, idx as nat));
        let m = nums_to_bits(image.as_slice());
        if m < bits {
            bits = m;
        }
        idx = idx + 1;
    }
    bits
}

/// Not every dove of `bits` has a neighbour.
pub open spec fn spec_isolated(bits: u16) -> bool {
    exists|q: u16| q < 16 && #[trigger] occupied(bits, q) && !neighbour_occupied(bits, q)
}

/// The canonical masks of all shapes of `num_doves` doves in which every
/// dove has a neighbour.
pub open spec fn connected_shapes(num_doves: nat) -> Set<u16> {
    Set::new(
        |b: u16|
            exists|s: Seq<usize>|
                arrangement(s, 16, num_doves) && increasing(s) && #[trigger] canonical_bits(s) == b
                    && !spec_isolated(b),
    )
}

/// Every shape of `num_doves` doves, once, by its canonical mask; shapes
/// with a dove that has no neighbour are left out.
pub fn find_all_bits(num_doves: usize) -> (r: Vec<u16>)
    requires
        1 <= num_doves <= 16,
    ensures
        r@.no_duplicates(),
        r@.to_set() == connected_shapes(num_doves as nat),
{
    let combos = combinations(16, num_doves);
    let mut all: Vec<u16> = Vec::new();
    let mut i: usize = 0;
    while i < combos.len()
        invariant
            i <= combos@.len(),
            1 <= num_doves <= 16,
            forall|k: int|
                0 <= k < combos@.len() ==> arrangement(#[trigger] combos@[k]@, 16, num_doves as nat)
                    && increasing(combos@[k]@),
            forall|s: Seq<usize>|
                arrangement(s, 16, num_doves as nat) && increasing(s) ==> exists|k: int|
                    0 <= k < combos@.len() && #[trigger] combos@[k]@ == s,
            all@.no_duplicates(),
            forall|b: u16|
                #[trigger] all@.contains(b) == exists|k: int|
                    0 <= k < i && canonical_bits(#[trigger] combos@[k]@) == b && !spec_isolated(b),
        decreases combos@.len() - i,
    {
        let c = &combos[i];
        assert(arrangement(combos@[i as int]@, 16, num_doves as nat));
        let bits = get_canonical_bits(c.as_slice());
        let isolated = is_isolated(bits);
        let mut seen = false;
        let mut j: usize = 0;
        while j < all.len()
            invariant
                j <= all@.len(),
                seen == all@.subrange(0, j as int).contains(bits),
            decreases all@.len() - j,
        {
            if all[j] == bits {
                seen = true;
            }
            j = j + 1;
            proof {
                let s0 = all@.subrange(0, j - 1);
                let s1 = all@.subrange(0, j as int);
                assert(s1 == s0.push(all@[j - 1]));
                if s1.contains(bits) {
                    let x = choose|x: int| 0 <= x < s1.len() && s1[x] == bits;
                    if x < s0.len() {
                        assert(s0[x] == bits);
                    }
                }
                if s0.contains(bits) {
                    let x = choose|x: int| 0 <= x < s0.len() && s0[x] == bits;
                    assert(s1[x] == bits);
                }
                if all@[j - 1] == bits {
                    assert(s1[j - 1] == bits);
                }
            }
        }
        assert(all@.subrange(0, all@.len() as int) == all@);
        let ghost before = all@;
        if !isolated && !seen {
            all.push(bits);
        }
        proof {
            assert forall|b: u16| #[trigger] all@.contains(b) == exists|k: int|
                0 <= k < i + 1 && canonical_bits(#[trigger] combos@[k]@) == b && !spec_isolated(
                    b,
                ) by {
                if all@.contains(b) {
                    if b == bits && !before.contains(b) {
                        assert(canonical_bits(combos@[i as int]@) == b);
                    } else {
                        assert(before.contains(b)) by {
                            let x = choose|x: int| 0 <= x < all@.len() && all@[x] == b;
                            if x < before.len() {
                                assert(before[x] == b);
                            }
                        }
                    }
                }
                if exists|k: int|
                    0 <= k < i + 1 && canonical_bits(#[trigger] combos@[k]@) == b && !spec_isolated(
                        b,
                    ) {
                    let k = choose|k: int|
                        0 <= k < i + 1 && canonical_bits(#[trigger] combos@[k]@) == b
                            && !spec_isolated(b);
                    if k < i {
                        assert(before.contains(b));
                        let x = choose|x: int| 0 <= x < before.len() && before[x] == b;
                        assert(all@[x] == b);
                    } else {
                        if seen {
                            let x = choose|x: int| 0 <= x < before.len() && before[x] == b;
                            assert(all@[x] == b);
                        } else {
                            assert(all@[before.len() as int] == b);
                        }
                    }
                }
            }
        }
        i = i + 1;
    }
    proof {
        assert forall|b: u16| #[trigger] all@.to_set().contains(b) == connected_shapes(
            num_doves as nat,
        ).contains(b) by {
            if all@.to_set().contains(b) {
                assert(all@.contains(b));
                let k = choose|k: int|
                    0 <= k < combos@.len() && canonical_bits(#[trigger] combos@[k]@) == b
                        && !spec_isolated(b);
                assert(arrangement(combos@[k]@, 16, num_doves as nat) && increasing(combos@[k]@));
            }
            if connected_shapes(num_doves as nat).contains(b) {
                let s = choose|s: Seq<usize>|
                    arrangement(s, 16, num_doves as nat) && increasing(s) && #[trigger] canonical_bits(
                        s,
                    ) == b && !spec_isolated(b);
                let k = choose|k: int| 0 <= k < combos@.len() && #[trigger] combos@[k]@ == s;
                assert(canonical_bits(combos@[k]@) == b);
                assert(all@.contains(b));
            }
        }
        assert(all@.to_set() =~= connected_shapes(num_doves as nat));
    }
    all
}

/// Red's action `i` on `board` moves its boss to a square with at least
/// two free sides.
pub open spec fn boss_escapes(board: u64, player: Color, rm: bool, i: int) -> bool {
    let action = forward_actions(board, player, true, true, rm)[i];
    let next = performed(board, action);
    moves_boss(action) && bosses_on_field(next) && boss_liberty(next, player) >= 2
}

/// No move of `player`'s boss reaches a square with two free sides.
pub open spec fn spec_boss_may_die(board: u64, player: Color, rm: bool) -> bool {
    !bosses_on_field(board) || forall|i: int|
        0 <= i < forward_actions(board, player, true, true, rm).len() ==> !#[trigger] boss_escapes(
            board,
            player,
            rm,
            i,
        )
}

/// Whether no move of `player`'s boss (removes allowed where `rm`)
/// reaches a square with at least two free sides.
pub fn boss_may_die(board: u64, player: Color, rm: bool) -> (r: bool)
    ensures
        r == spec_boss_may_die(board, player, rm),
{
    if !crate::game::has_both_bosses(board) {
        return true;
    }
    let actions = crate::game::legal_actions(board, player, true, true, rm);
    let mut i: usize = 0;
    while i < actions.len()
        invariant
            bosses_on_field(board),
            actions@ == forward_actions(board, player, true, true, rm),
            i <= actions@.len(),
            forall|j: int| 0 <= j < i ==> !#[trigger] boss_escapes(board, player, rm, j),
        decreases actions@.len() - i,
    {
        let action = actions[i];
        if is_boss_move(action) {
            assert(forward_actions(board, player, true, true, rm).contains(action));
            let next = crate::game::perform(board, action);
            if crate::game::has_both_bosses(next) && liberty_of_boss(next, player) >= 2 {
                assert(boss_escapes(board, player, rm, i as int));
                return false;
            }
        }
        i = i + 1;
    }
    true
}

/// Square slot, among the twelve one-hot positions, of the `j`-th dove that
/// is not a boss (Red's A, Y, M, T, H, then Green's).
pub open spec fn slot(j: usize) -> int {
    if j < 5 {
        j + 1
    } else {
        j + 2
    }
}

/// The bosses on `rb` and `gb`, and the `i`-th of the first `k` squares of
/// `others` taken by the dove `order[i]`.
pub open spec fn placed(rb: u16, gb: u16, others: Seq<u16>, order: Seq<usize>, k: nat) -> Seq<u16>
    decreases k,
{
    if k == 0 {
        seq![rb, 0u16, 0u16, 0u16, 0u16, 0u16, gb, 0u16, 0u16, 0u16, 0u16, 0u16]
    } else {
        placed(rb, gb, others, order, (k - 1) as nat).update(
            slot(order[k - 1]),
            others[k - 1],
        )
    }
}

/// The board with bosses on `rb` and `gb` and the other doves of `bits`
/// placed by `order`, lowest square first.
pub open spec fn laid_out(bits: u16, rb: u16, gb: u16, order: Seq<usize>) -> u64 {
    let others = hot_upto(bits & !(rb | gb), 16);
    let k = if others.len() < order.len() {
        others.len()
    } else {
        order.len()
    };
    board_of_bits(placed(rb, gb, others, order, k))
}

/// The first board of `orders` with both bosses exists and its Red boss may
/// die: the boards of this boss placement are worth examining.
pub open spec fn placement_live(bits: u16, rb: u16, gb: u16, orders: Seq<Vec<usize>>) -> bool {
    exists|f: int|
        0 <= f < orders.len() && bosses_on_field(laid_out(bits, rb, gb, orders[f]@)) && (forall|
            j: int,
        |
            0 <= j < f ==> !bosses_on_field(#[trigger] laid_out(bits, rb, gb, orders[j]@)))
            && spec_boss_may_die(laid_out(bits, rb, gb, orders[f]@), Color::Red, true)
}

/// The hashes of the boards lost in two plies with bosses on `rb` and `gb`.
pub open spec fn found_by_placement(
    bits: u16,
    rb: u16,
    gb: u16,
    orders: Seq<Vec<usize>>,
    both_is_win: bool,
) -> Set<u64> {
    Set::new(
        |h: u64|
            placement_live(bits, rb, gb, orders) && exists|j: int|
                0 <= j < orders.len() && bosses_on_field(
                    #[trigger] laid_out(bits, rb, gb, orders[j]@),
                ) && lose_in_2(laid_out(bits, rb, gb, orders[j]@), both_is_win) && invariant_hash(
                    laid_out(bits, rb, gb, orders[j]@),
                    Color::Red,
                ) == h,
    )
}

/// One-hot masks of the squares below `k` whose dove is not enclosed,
/// lowest first.
pub open spec fn free_units(bits: u16, k: nat) -> Seq<u16>
    decreases k,
{
    if k == 0 {
        Seq::empty()
    } else if occupied(bits, (k - 1) as u16) && !enclosed(bits, (k - 1) as u16) {
        free_units(bits, (k - 1) as nat).push(1u16 << ((k - 1) as u16))
    } else {
        free_units(bits, (k - 1) as nat)
    }
}

proof fn lemma_free_units(bits: u16, m: u16, k: nat)
    requires
        k <= 16,
        forall|q: u16|
            q < 16 ==> #[trigger] occupied(m, q) == (occupied(bits, q) && !enclosed(bits, q)),
    ensures
        hot_upto(m, k) == free_units(bits, k),
    decreases k,
{
    if k > 0 {
        lemma_free_units(bits, m, (k - 1) as nat);
        assert(occupied(m, (k - 1) as u16) == (occupied(bits, (k - 1) as u16) && !enclosed(
            bits,
            (k - 1) as u16,
        )));
    }
}

/// The hashes (Red to move) of every board lost in two plies whose doves
/// stand on `bits`: each boss on a square whose dove is not enclosed, the
/// other doves placed by each of `orders`.
pub open spec fn lose2_of(bits: u16, orders: Seq<Vec<usize>>, both_is_win: bool) -> Set<u64> {
    let hot = free_units(bits, 16);
    Set::new(
        |h: u64|
            exists|x: int, y: int|
                0 <= x < hot.len() && 0 <= y < hot.len() && x != y && #[trigger] found_by_placement(
                    bits,
                    hot[x],
                    hot[y],
                    orders,
                    both_is_win,
                ).contains(h),
    )
}

/// The ways to place `count` doves that are not bosses: ordered choices of
/// `count` of the ten.
pub fn placement_orders(count: usize) -> (r: Vec<Vec<usize>>)
    ensures
        forall|i: int| 0 <= i < r@.len() ==> arrangement(#[trigger] r@[i]@, 10, count as nat),
        forall|s: Seq<usize>|
            arrangement(s, 10, count as nat) ==> exists|i: int|
                0 <= i < r@.len() && #[trigger] r@[i]@ == s,
        distinct_seqs(r@),
{
    permutations(10, count)
}

/// Adds to `pool` the hashes of the boards lost in two plies whose doves
/// stand on `bits`, with the other doves placed by each of `orders`.
pub fn pack_lose2(pool: &mut BoardSet, bits: u16, both_is_win: bool, orders: &Vec<Vec<usize>>)
    requires
        forall|i: int, k: int|
            0 <= i < orders@.len() && 0 <= k < orders@[i]@.len() ==> #[trigger] orders@[i]@[k]
                < 10,
    ensures
        contents(*final(pool)) == contents(*old(pool)).union(lose2_of(bits, orders@, both_is_win)),
        contents(*old(pool)).finite() ==> contents(*final(pool)).finite(),
{
    let (_, not_surrounded) = decompose(bits);
    let hot = hot_bits(not_surrounded);
    proof {
        lemma_free_units(bits, not_surrounded, 16);
    }
    let pairs = permutations(hot.len(), 2);
    let ghost pool0 = contents(*pool);
    let mut pi: usize = 0;
    while pi < pairs.len()
        invariant
            pi <= pairs@.len(),
            hot@ == free_units(bits, 16),
            forall|i: int| 0 <= i < pairs@.len() ==> arrangement(#[trigger] pairs@[i]@, hot@.len() as nat, 2),
            forall|s: Seq<usize>|
                arrangement(s, hot@.len() as nat, 2) ==> exists|i: int|
                    0 <= i < pairs@.len() && #[trigger] pairs@[i]@ == s,
            forall|i: int, k: int|
                0 <= i < orders@.len() && 0 <= k < orders@[i]@.len() ==> #[trigger] orders@[i]@[k]
                    < 10,
            contents(*pool) == pool0.union(
                Set::new(
                    |h: u64|
                        exists|i: int|
                            0 <= i < pi && #[trigger] found_by_placement(
                                bits,
                                hot@[pairs@[i]@[0] as int],
                                hot@[pairs@[i]@[1] as int],
                                orders@,
                                both_is_win,
                            ).contains(h),
                ),
            ),
            pool0.finite() ==> contents(*pool).finite(),
        decreases pairs@.len() - pi,
    {
        assert(arrangement(pairs@[pi as int]@, hot@.len() as nat, 2));
        let rb = hot[pairs[pi][0]];
        let gb = hot[pairs[pi][1]];
        let others = hot_bits(bits & !(rb | gb));
        let ghost before = contents(*pool);
        let mut first_check = true;
        let mut stop = false;
        let mut oi: usize = 0;
        while oi < orders.len() && !stop
            invariant
                oi <= orders@.len(),
                others@ == hot_upto(bits & !(rb | gb), 16),
                forall|i: int, k: int|
                    0 <= i < orders@.len() && 0 <= k < orders@[i]@.len() ==> #[trigger] orders@[i]@[k]
                        < 10,
                first_check && !stop ==> forall|j: int|
                    0 <= j < oi ==> !bosses_on_field(#[trigger] laid_out(bits, rb, gb, orders@[j]@)),
                !first_check ==> placement_live(bits, rb, gb, orders@),
                stop ==> !placement_live(bits, rb, gb, orders@),
                stop ==> contents(*pool) == before,
                !stop ==> contents(*pool) == before.union(
                    Set::new(
                        |h: u64|
                            placement_live(bits, rb, gb, orders@) && exists|j: int|
                                0 <= j < oi && bosses_on_field(
                                    #[trigger] laid_out(bits, rb, gb, orders@[j]@),
                                ) && lose_in_2(laid_out(bits, rb, gb, orders@[j]@), both_is_win)
                                    && invariant_hash(laid_out(bits, rb, gb, orders@[j]@), Color::Red)
                                    == h,
                    ),
                ),
                before.finite() ==> contents(*pool).finite(),
            decreases orders@.len() - oi,
        {
            let board = lay_out(rb, gb, &others, &orders[oi]);
            assert(board == laid_out(bits, rb, gb, orders@[oi as int]@));
            if crate::game::has_both_bosses(board) {
                if first_check {
                    if boss_may_die(board, Color::Red, true) {
                        first_check = false;
                        assert(placement_live(bits, rb, gb, orders@));
                    } else {
                        stop = true;
                        assert(!placement_live(bits, rb, gb, orders@)) by {
                            if placement_live(bits, rb, gb, orders@) {
                                let f = choose|f: int|
                                    0 <= f < orders@.len() && bosses_on_field(
                                        laid_out(bits, rb, gb, orders@[f]@),
                                    ) && (forall|j: int|
                                        0 <= j < f ==> !bosses_on_field(
                                            #[trigger] laid_out(bits, rb, gb, orders@[j]@),
                                        )) && spec_boss_may_die(
                                        laid_out(bits, rb, gb, orders@[f]@),
                                        Color::Red,
                                        true,
                                    );
                                if f < oi {
                                    assert(!bosses_on_field(laid_out(bits, rb, gb, orders@[f]@)));
                                } else if f > oi {
                                    assert(!bosses_on_field(laid_out(bits, rb, gb, orders@[oi as int]@)));
                                }
                            }
                        }
                    }
                }
                if !stop {
                    let ghost prev = contents(*pool);
                    if is_lose_in_2(board, both_is_win) {
                        let h = crate::game::to_invariant_u64(board, Color::Red);
                        insert(pool, h);
                    }
                    proof {
                        let s_old = Set::new(
                            |h: u64|
                                placement_live(bits, rb, gb, orders@) && exists|j: int|
                                    0 <= j < oi && bosses_on_field(
                                        #[trigger] laid_out(bits, rb, gb, orders@[j]@),
                                    ) && lose_in_2(laid_out(bits, rb, gb, orders@[j]@), both_is_win)
                                        && invariant_hash(laid_out(bits, rb, gb, orders@[j]@), Color::Red)
                                        == h,
                        );
                        let s_new = Set::new(
                            |h: u64|
                                placement_live(bits, rb, gb, orders@) && exists|j: int|
                                    0 <= j < oi + 1 && bosses_on_field(
                                        #[trigger] laid_out(bits, rb, gb, orders@[j]@),
                                    ) && lose_in_2(laid_out(bits, rb, gb, orders@[j]@), both_is_win)
                                        && invariant_hash(laid_out(bits, rb, gb, orders@[j]@), Color::Red)
                                        == h,
                        );
                        assert forall|h: u64| #[trigger] s_new.contains(h) == (s_old.contains(h) || (
                        lose_in_2(board, both_is_win) && invariant_hash(board, Color::Red) == h)) by {
                            if s_new.contains(h) {
                                let j = choose|j: int|
                                    0 <= j < oi + 1 && bosses_on_field(
                                        #[trigger] laid_out(bits, rb, gb, orders@[j]@),
                                    ) && lose_in_2(laid_out(bits, rb, gb, orders@[j]@), both_is_win)
                                        && invariant_hash(laid_out(bits, rb, gb, orders@[j]@), Color::Red)
                                        == h;
                                if j < oi {
                                    assert(s_old.contains(h));
                                }
                            }
                            if lose_in_2(board, both_is_win) && invariant_hash(board, Color::Red) == h {
                                assert(bosses_on_field(laid_out(bits, rb, gb, orders@[oi as int]@)));
                            }
                        }
                        assert(contents(*pool) =~= before.union(s_new));
                    }
                }
            } else {
                proof {
                    assert(!bosses_on_field(laid_out(bits, rb, gb, orders@[oi as int]@)));
                    let s_old = Set::new(
                        |h: u64|
                            placement_live(bits, rb, gb, orders@) && exists|j: int|
                                0 <= j < oi && bosses_on_field(
                                    #[trigger] laid_out(bits, rb, gb, orders@[j]@),
                                ) && lose_in_2(laid_out(bits, rb, gb, orders@[j]@), both_is_win)
                                    && invariant_hash(laid_out(bits, rb, gb, orders@[j]@), Color::Red)
                                    == h,
                    );
                    let s_new = Set::new(
                        |h: u64|
                            placement_live(bits, rb, gb, orders@) && exists|j: int|
                                0 <= j < oi + 1 && bosses_on_field(
                                    #[trigger] laid_out(bits, rb, gb, orders@[j]@),
                                ) && lose_in_2(laid_out(bits, rb, gb, orders@[j]@), both_is_win)
                                    && invariant_hash(laid_out(bits, rb, gb, orders@[j]@), Color::Red)
                                    == h,
                    );
                    assert(s_new =~= s_old);
                }
            }
            oi = oi + 1;
        }
        proof {
            let fb = found_by_placement(bits, rb, gb, orders@, both_is_win);
            if !stop {
                if first_check {
                    assert(!placement_live(bits, rb, gb, orders@)) by {
                        if placement_live(bits, rb, gb, orders@) {
                            let f = choose|f: int|
                                0 <= f < orders@.len() && bosses_on_field(
                                    laid_out(bits, rb, gb, orders@[f]@),
                                ) && (forall|j: int|
                                    0 <= j < f ==> !bosses_on_field(
                                        #[trigger] laid_out(bits, rb, gb, orders@[j]@),
                                    )) && spec_boss_may_die(
                                    laid_out(bits, rb, gb, orders@[f]@),
                                    Color::Red,
                                    true,
                                );
                            assert(!bosses_on_field(laid_out(bits, rb, gb, orders@[f]@)));
                        }
                    }
                }
                assert(contents(*pool) =~= before.union(fb));
            } else {
                assert(fb =~= Set::<u64>::empty());
                assert(contents(*pool) =~= before.union(fb));
            }
            let s_old = Set::new(
                |h: u64|
                    exists|i: int|
                        0 <= i < pi && #[trigger] found_by_placement(
                            bits,
                            hot@[pairs@[i]@[0] as int],
                            hot@[pairs@[i]@[1] as int],
                            orders@,
                            both_is_win,
                        ).contains(h),
            );
            let s_new = Set::new(
                |h: u64|
                    exists|i: int|
                        0 <= i < pi + 1 && #[trigger] found_by_placement(
                            bits,
                            hot@[pairs@[i]@[0] as int],
                            hot@[pairs@[i]@[1] as int],
                            orders@,
                            both_is_win,
                        ).contains(h),
            );
            assert forall|h: u64| #[trigger] s_new.contains(h) == (s_old.contains(h) || fb.contains(
                h,
            )) by {
                if s_new.contains(h) {
                    let i = choose|i: int|
                        0 <= i < pi + 1 && #[trigger] found_by_placement(
                            bits,
                            hot@[pairs@[i]@[0] as int],
                            hot@[pairs@[i]@[1] as int],
                            orders@,
                            both_is_win,
                        ).contains(h);
                    if i < pi {
                        assert(s_old.contains(h));
                    }
                }
                if fb.contains(h) {
                    assert(found_by_placement(
                        bits,
                        hot@[pairs@[pi as int]@[0] as int],
                        hot@[pairs@[pi as int]@[1] as int],
                        orders@,
                        both_is_win,
                    ).contains(h));
                }
            }
            assert(contents(*pool) =~= pool0.union(s_new));
        }
        pi = pi + 1;
    }
    proof {
        let hot_s = hot@;
        let s_all = Set::new(
            |h: u64|
                exists|i: int|
                    0 <= i < pairs@.len() && #[trigger] found_by_placement(
                        bits,
                        hot@[pairs@[i]@[0] as int],
                        hot@[pairs@[i]@[1] as int],
                        orders@,
                        both_is_win,
                    ).contains(h),
        );
        assert forall|h: u64| #[trigger] s_all.contains(h) == lose2_of(bits, orders@, both_is_win).contains(
            h,
        ) by {
            if s_all.contains(h) {
                let i = choose|i: int|
                    0 <= i < pairs@.len() && #[trigger] found_by_placement(
                        bits,
                        hot@[pairs@[i]@[0] as int],
                        hot@[pairs@[i]@[1] as int],
                        orders@,
                        both_is_win,
                    ).contains(h);
                assert(arrangement(pairs@[i]@, hot@.len() as nat, 2));
                let x = pairs@[i]@[0] as int;
                let y = pairs@[i]@[1] as int;
                assert(x != y);
            }
            if lose2_of(bits, orders@, both_is_win).contains(h) {
                let (x, y) = choose|x: int, y: int|
                    0 <= x < hot_s.len() && 0 <= y < hot_s.len() && x != y
                        && #[trigger] found_by_placement(
                        bits,
                        hot_s[x],
                        hot_s[y],
                        orders@,
                        both_is_win,
                    ).contains(h);
                let s = seq![x as usize, y as usize];
                assert(arrangement(s, hot@.len() as nat, 2));
                let i = choose|i: int| 0 <= i < pairs@.len() && #[trigger] pairs@[i]@ == s;
                assert(pairs@[i]@[0] == x && pairs@[i]@[1] == y);
            }
        }
        assert(s_all =~= lose2_of(bits, orders@, both_is_win));
    }
}

/// The board with bosses on `rb` and `gb` and the doves of `order` on the
/// squares of `others`, lowest first.
fn lay_out(rb: u16, gb: u16, others: &Vec<u16>, order: &Vec<usize>) -> (r: u64)
    requires
        forall|k: int| 0 <= k < order@.len() ==> #[trigger] order@[k] < 10,
    ensures
        r == board_of_bits(
            placed(
                rb,
                gb,
                others@,
                order@,
                if others@.len() < order@.len() {
                    others@.len()
                } else {
                    order@.len()
                },
            ),
        ),
{
    let mut positions: Vec<u16> = vec![rb, 0, 0, 0, 0, 0, gb, 0, 0, 0, 0, 0];
    assert(positions@ =~= placed(rb, gb, others@, order@, 0));
    let n = if others.len() < order.len() {
        others.len()
    } else {
        order.len()
    };
    let mut k: usize = 0;
    while k < n
        invariant
            k <= n,
            n <= others@.len(),
            n <= order@.len(),
            forall|i: int| 0 <= i < order@.len() ==> #[trigger] order@[i] < 10,
            positions@.len() == 12,
            positions@ == placed(rb, gb, others@, order@, k as nat),
        decreases n - k,
    {
        let j = order[k];
        let s: usize = if j < 5 {
            j + 1
        } else {
            j + 2
        };
        positions.set(s, others[k]);
        k = k + 1;
    }
    board_from_bits(&positions)
}

/// The boards lost in two plies of every shape of `shapes`.
pub open spec fn lose2_of_all(shapes: Seq<u16>, orders: Seq<Vec<usize>>, both_is_win: bool) -> Set<
    u64,
> {
    Set::new(
        |h: u64|
            exists|i: int|
                0 <= i < shapes.len() && #[trigger] lose2_of(shapes[i], orders, both_is_win).contains(
                    h,
                ),
    )
}

/// Collects the boards lost in two plies of every shape of `shapes`, the
/// other doves placed by each of `orders`.
pub fn pack_lose2_all(shapes: &[u16], both_is_win: bool, orders: &Vec<Vec<usize>>) -> (r: BoardSet)
    requires
        forall|i: int, k: int|
            0 <= i < orders@.len() && 0 <= k < orders@[i]@.len() ==> #[trigger] orders@[i]@[k]
                < 10,
    ensures
        contents(r) == lose2_of_all(shapes@, orders@, both_is_win),
        contents(r).finite(),
{
    let mut pool = crate::board_set::new_set();
    let mut i: usize = 0;
    while i < shapes.len()
        invariant
            i <= shapes@.len(),
            forall|a: int, k: int|
                0 <= a < orders@.len() && 0 <= k < orders@[a]@.len() ==> #[trigger] orders@[a]@[k]
                    < 10,
            contents(pool) == lose2_of_all(shapes@.subrange(0, i as int), orders@, both_is_win),
            contents(pool).finite(),
        decreases shapes@.len() - i,
    {
        pack_lose2(&mut pool, shapes[i], both_is_win, orders);
        proof {
            let pre = shapes@.subrange(0, i as int);
            let post = shapes@.subrange(0, i + 1);
            assert forall|h: u64| #[trigger] lose2_of_all(post, orders@, both_is_win).contains(h)
                == (lose2_of_all(pre, orders@, both_is_win).contains(h) || lose2_of(
                shapes@[i as int],
                orders@,
                both_is_win,
            ).contains(h)) by {
                if lose2_of_all(post, orders@, both_is_win).contains(h) {
                    let x = choose|x: int|
                        0 <= x < post.len() && #[trigger] lose2_of(post[x], orders@, both_is_win).contains(
                            h,
                        );
                    if x < i {
                        assert(pre[x] == post[x]);
                        assert(lose2_of_all(pre, orders@, both_is_win).contains(h));
                    }
                }
                if lose2_of_all(pre, orders@, both_is_win).contains(h) {
                    let x = choose|x: int|
                        0 <= x < pre.len() && #[trigger] lose2_of(pre[x], orders@, both_is_win).contains(
                            h,
                        );
                    assert(post[x] == pre[x]);
                    assert(lose2_of(post[x], orders@, both_is_win).contains(h));
                }
                if lose2_of(shapes@[i as int], orders@, both_is_win).contains(h) {
                    assert(post[i as int] == shapes@[i as int]);
                    assert(lose2_of(post[i as int], orders@, both_is_win).contains(h));
                }
            }
            assert(contents(pool) =~= lose2_of_all(post, orders@, both_is_win));
        }
        i = i + 1;
    }
    assert(shapes@.subrange(0, shapes@.len() as int) == shapes@);
    pool
}

} // verus!
