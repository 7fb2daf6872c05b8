//! Bit-level access to the 64-bit position hash.
//!
//! Bits 48..60 hold the presence mask: for each role two bits, the even one
//! for Green and the odd one for Red (H at 48/49, T at 50/51, M at 52/53,
//! Y at 54/55, A at 56/57, B at 58/59). Bits 0..48 hold one byte per role in
//! the same order; the low nibble of each byte is Green's square, the high
//! nibble Red's, a square being `4 * row + column` on the 4x4 field.

use vstd::prelude::*;

verus! {

/// The two players.
#[derive(Debug, Clone, Copy, PartialEq, Eq, Hash, Structural)]
pub enum Color {
    Red,
    Green,
}

/// The six roles of a dove.
#[derive(Debug, Clone, Copy, PartialEq, Eq, Hash, Structural)]
pub enum Dove {
    B,
    A,
    Y,
    M,
    T,
    H,
}

/// Offset of a color's bit inside a role's pair of presence bits.
pub open spec fn color_bit(color: Color) -> u64 {
    match color {
        Color::Red => 1,
        Color::Green => 0,
    }
}

/// Offset of a role's pair of presence bits inside the 12-bit mask.
pub open spec fn dove_bits(dove: Dove) -> u64 {
    match dove {
        Dove::B => 10,
        Dove::A => 8,
        Dove::Y => 6,
        Dove::M => 4,
        Dove::T => 2,
        Dove::H => 0,
    }
}

/// Position of the presence bit of `(color, dove)` inside the 12-bit mask.
pub open spec fn presence_offset(color: Color, dove: Dove) -> u64 {
    (dove_bits(dove) + color_bit(color)) as u64
}

/// Position of the coordinate nibble of `(color, dove)` inside the hash.
pub open spec fn coordinate_shift(color: Color, dove: Dove) -> u64 {
    (4 * dove_bits(dove) + 4 * color_bit(color)) as u64
}

/// The 12-bit presence mask of a hash.
pub open spec fn presence_mask(hash: u64) -> u64 {
    (hash >> 48u64) & 0xfffu64
}

/// Whether the mask has the presence bit of `(color, dove)` set.
pub open spec fn mask_has(mask: u64, color: Color, dove: Dove) -> bool {
    (mask >> presence_offset(color, dove)) & 1u64 == 1u64
}

/// Bit `i` of the mask.
pub open spec fn mask_bit(mask: u64, i: int) -> bool {
    (mask >> (i as u64)) & 1u64 == 1u64
}

/// The bits of `mask` that belong to `color`.
pub open spec fn project(mask: u64, color: Color) -> u64 {
    match color {
        Color::Red => mask & 0xaaau64,
        Color::Green => mask & 0x555u64,
    }
}

/// The mask with the Red and the Green bit of every role swapped.
pub open spec fn swap_colors(mask: u64) -> u64 {
    ((mask & 0xaaau64) >> 1u64) | ((mask & 0x555u64) << 1u64)
}

/// Number of set bits.
pub open spec fn popcount(x: u64) -> nat
    decreases x,
{
    if x == 0 {
        0
    } else {
        (x % 2) as nat + popcount(x / 2)
    }
}

/// The square of `(color, dove)` as written in the hash.
pub open spec fn coordinate(hash: u64, color: Color, dove: Dove) -> u64 {
    (hash >> coordinate_shift(color, dove)) & 0xfu64
}

/// Manhattan distance between two squares of the 4x4 field.
pub open spec fn manhattan(p: u64, q: u64) -> int {
    let dh = (p % 4) as int - (q % 4) as int;
    let dv = (p / 4) as int - (q / 4) as int;
    (if dh < 0 { -dh } else { dh }) + (if dv < 0 { -dv } else { dv })
}

/// Distance from `color`'s boss to its aniki, or 0 where the aniki is absent.
pub open spec fn spec_distance_a(hash: u64, color: Color) -> int {
    if !mask_has(presence_mask(hash), color, Dove::A) {
        0
    } else {
        manhattan(coordinate(hash, color, Dove::B), coordinate(hash, color, Dove::A))
    }
}

/// The presence bits of a position, kept in place (bits 48..60).
#[derive(Debug, Clone, Copy, PartialEq, Eq, Hash, Structural)]
pub struct OnOff {
    onoff: u64,
}

impl View for OnOff {
    type V = u64;

    /// The 12-bit mask.
    closed spec fn view(&self) -> u64 {
        self.onoff >> 48u64
    }
}

impl OnOff {
    /// No bit outside 48..60 is set.
    pub closed spec fn wf(&self) -> bool {
        self.onoff & !(0xfffu64 << 48u64) == 0
    }

    pub fn new(hash: u64) -> (r: Self)
        ensures
            r.wf(),
            r@ == presence_mask(hash),
    {
        let onoff = hash & (0xfffu64 << 48u64);
        assert(onoff & !(0xfffu64 << 48u64) == 0 && onoff >> 48u64 == (hash >> 48u64) & 0xfffu64)
            by (bit_vector)
            requires
                onoff == hash & (0xfffu64 << 48u64),
        ;
        OnOff { onoff }
    }

    /// `OnOff(` followed by the 12 bits of the mask, B's Red bit first, and
    /// `)`.
    pub fn describe(&self) -> (r: String)
        requires
            self.wf(),
        ensures
            r@ == "OnOff("@ + Seq::new(12, |i: int| if mask_bit(self@, 11 - i) {
                '1'
            } else {
                '0'
            }) + ")"@,
    {
        let m = self.onoff >> 48u64;
        let mut s = String::from_str("OnOff(");
        let ghost prefix = s@;
        let mut i: u64 = 0;
        while i < 12
            invariant
                i <= 12,
                m == self@,
                s@ == prefix + Seq::new(i as nat, |j: int| if mask_bit(m, 11 - j) {
                    '1'
                } else {
                    '0'
                }),
            decreases 12 - i,
        {
            proof {
                reveal_strlit("0");
                reveal_strlit("1");
            }
            if (m >> (11 - i)) & 1 == 1 {
                s.append("1");
            } else {
                s.append("0");
            }
            i = i + 1;
            assert(s@ =~= prefix + Seq::new(i as nat, |j: int| if mask_bit(m, 11 - j) {
                '1'
            } else {
                '0'
            }));
        }
        s.append(")");
        s
    }

    /// The 12-bit mask.
    pub fn mask(&self) -> (r: u64)
        ensures
            r == self@,
    {
        self.onoff >> 48u64
    }

    pub fn contains(&self, color: Color, dove: Dove) -> (r: bool)
        requires
            self.wf(),
        ensures
            r == mask_has(self@, color, dove),
    {
        let icolor: u64 = match color {
            Color::Red => 1,
            Color::Green => 0,
        };
        let idove: u64 = match dove {
            Dove::B => 58,
            Dove::A => 56,
            Dove::Y => 54,
            Dove::M => 52,
            Dove::T => 50,
            Dove::H => 48,
        };
        let k = icolor + idove;
        let x = self.onoff;
        assert((x & (1u64 << k) != 0) == (((x >> 48u64) >> ((k - 48u64) as u64)) & 1u64 == 1u64))
            by (bit_vector)
            requires
                48 <= k < 60,
        ;
        x & (1u64 << k) != 0
    }

    /// The same position seen from the other player: Red and Green swap.
    pub fn complement(self) -> (r: Self)
        requires
            self.wf(),
        ensures
            r.wf(),
            r@ == swap_colors(self@),
    {
        let red: u64 = 0xaaau64 << 48u64;
        let green: u64 = 0x555u64 << 48u64;
        let x = self.onoff;
        let y = ((x & red) >> 1u64) | ((x & green) << 1u64);
        assert(y & !(0xfffu64 << 48u64) == 0 && y >> 48u64 == (((x >> 48u64) & 0xaaau64) >> 1u64)
            | (((x >> 48u64) & 0x555u64) << 1u64)) by (bit_vector)
            requires
                x & !(0xfffu64 << 48u64) == 0,
                red == 0xaaau64 << 48u64,
                green == 0x555u64 << 48u64,
                y == ((x & red) >> 1u64) | ((x & green) << 1u64),
        ;
        OnOff { onoff: y }
    }

    /// Only the bits of `color`.
    pub fn project_on(self, color: Color) -> (r: Self)
        requires
            self.wf(),
        ensures
            r.wf(),
            r@ == project(self@, color),
    {
        let x = self.onoff;
        match color {
            Color::Red => {
                let y = x & (0xaaau64 << 48u64);
                assert(y & !(0xfffu64 << 48u64) == 0 && y >> 48u64 == (x >> 48u64) & 0xaaau64)
                    by (bit_vector)
                    requires
                        y == x & (0xaaau64 << 48u64),
                ;
                OnOff { onoff: y }
            },
            Color::Green => {
                let y = x & (0x555u64 << 48u64);
                assert(y & !(0xfffu64 << 48u64) == 0 && y >> 48u64 == (x >> 48u64) & 0x555u64)
                    by (bit_vector)
                    requires
                        y == x & (0x555u64 << 48u64),
                ;
                OnOff { onoff: y }
            },
        }
    }

    /// Number of doves on the field.
    pub fn count_doves(&self) -> (r: u32)
        requires
            self.wf(),
        ensures
            r as nat == popcount(self@),
    {
        let onoff = self.onoff;
        let m: u64 = onoff >> 48u64;
        let mut x: u64 = m;
        let mut count: u32 = 0;
        let mut i: u64 = 0;
        assert(m >> 12u64 == 0) by (bit_vector)
            requires
                m == onoff >> 48u64,
                onoff & !(0xfffu64 << 48u64) == 0,
        ;
        while x != 0
            invariant
                i <= 12,
                count <= i,
                x >> ((12 - i) as u64) == 0,
                count + popcount(x) == popcount(m),
            decreases x,
        {
            assert(x & 1 == x % 2 && x >> 1 == x / 2 && (x != 0 && i <= 12 && x >> ((12 - i)
                as u64) == 0 ==> i < 12 && (x >> 1) >> ((12 - (i + 1)) as u64) == 0))
                by (bit_vector);
            count = count + (x & 1) as u32;
            x = x >> 1;
            i = i + 1;
        }
        count
    }
}

/// The square (0..16) of `(color, dove)` as written in the hash.
pub fn coordinate_index(hash: u64, color: Color, dove: Dove) -> (r: u64)
    ensures
        r == coordinate(hash, color, dove),
        r < 16,
{
    let icolor: u64 = match color {
        Color::Red => 4,
        Color::Green => 0,
    };
    let idove: u64 = match dove {
        Dove::B => 40,
        Dove::A => 32,
        Dove::Y => 24,
        Dove::M => 16,
        Dove::T => 8,
        Dove::H => 0,
    };
    let r = (hash >> (icolor + idove)) & 0xf;
    assert(r < 16) by (bit_vector)
        requires
            r == (hash >> (icolor + idove)) & 0xf,
    ;
    r
}

/// Manhattan distance on the 4x4 field between `color`'s boss and aniki;
/// 0 where the aniki is not on the field.
pub fn distance_a(hash: u64, color: Color) -> (r: u64)
    ensures
        r == spec_distance_a(hash, color),
{
    if !OnOff::new(hash).contains(color, Dove::A) {
        0
    } else {
        let boss = coordinate_index(hash, color, Dove::B);
        let aniki = coordinate_index(hash, color, Dove::A);
        abs_diff(boss % 4, aniki % 4) + abs_diff(boss / 4, aniki / 4)
    }
}

fn abs_diff(x: u64, y: u64) -> (r: u64)
    ensures
        r == (if x < y { y - x } else { x - y }),
{
    if x < y {
        y - x
    } else {
        x - y
    }
}

/// The boss-to-aniki distance of either color is at most 6.
pub proof fn lemma_distance_a_bounded(hash: u64, color: Color)
    ensures
        0 <= spec_distance_a(hash, color) <= 6,
{
    let b = coordinate(hash, color, Dove::B);
    let a = coordinate(hash, color, Dove::A);
    let sb = coordinate_shift(color, Dove::B);
    let sa = coordinate_shift(color, Dove::A);
    assert(b < 16 && a < 16) by (bit_vector)
        requires
            b == (hash >> sb) & 0xfu64,
            a == (hash >> sa) & 0xfu64,
    ;
}

/// Swapping colors twice gives back the presence mask.
pub proof fn lemma_complement_involutive(hash: u64)
    ensures
        swap_colors(swap_colors(presence_mask(hash))) == presence_mask(hash),
{
    let m = presence_mask(hash);
    assert(m < 4096) by (bit_vector)
        requires
            m == (hash >> 48u64) & 0xfffu64,
    ;
    assert(((((m & 0xaaau64) >> 1u64) | ((m & 0x555u64) << 1u64)) & 0xaaau64) >> 1u64 | ((((m
        & 0xaaau64) >> 1u64) | ((m & 0x555u64) << 1u64)) & 0x555u64) << 1u64 == m)
        by (bit_vector)
        requires
            m < 4096,
    ;
}

/// The Red and the Green projection of a mask are disjoint and together
/// give back the mask.
pub proof fn lemma_projections_partition(mask: u64)
    requires
        mask < 4096,
    ensures
        project(mask, Color::Red) | project(mask, Color::Green) == mask,
        project(mask, Color::Red) & project(mask, Color::Green) == 0,
{
    assert((mask & 0xaaau64) | (mask & 0x555u64) == mask && (mask & 0xaaau64) & (mask
        & 0x555u64) == 0) by (bit_vector)
        requires
            mask < 4096,
    ;
}

/// The doves of Red and the doves of Green add up to all doves.
pub proof fn lemma_projections_count(mask: u64)
    requires
        mask < 4096,
    ensures
        popcount(project(mask, Color::Red)) + popcount(project(mask, Color::Green)) == popcount(
            mask,
        ),
{
    lemma_projections_partition(mask);
    lemma_popcount_disjoint_or(project(mask, Color::Red), project(mask, Color::Green));
}

/// Counting bits is additive over disjoint masks.
pub proof fn lemma_popcount_disjoint_or(a: u64, b: u64)
    requires
        a & b == 0,
    ensures
        popcount(a | b) == popcount(a) + popcount(b),
    decreases a,
{
    if a == 0 {
        assert(0u64 | b == b) by (bit_vector);
    } else {
        assert((a | b) / 2 == (a / 2) | (b / 2) && (a / 2) & (b / 2) == 0 && (a | b) % 2 == a % 2
            + b % 2 && a | b != 0) by (bit_vector)
            requires
                a & b == 0,
                a != 0,
        ;
        lemma_popcount_disjoint_or(a / 2, b / 2);
    }
}

} // verus!
