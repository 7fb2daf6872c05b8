//! Predicates on hashes that cut a large set of positions into partitions
//! small enough to be held in memory one at a time.

use vstd::prelude::*;
use vstd::std_specs::bits::u64_trailing_ones;
use crate::hashutil::{
    distance_a, popcount, presence_mask, project, spec_distance_a, Color, OnOff,
};

verus! {

/// A partition predicate on position hashes.
#[derive(Debug, Clone, Copy, PartialEq, Eq, Hash, Structural)]
pub enum HashFilter {
    /// Every hash.
    All,
    /// Red has `level` (mod 3) doves on the field.
    Win9(u32),
    /// Green has `level` (mod 3) doves on the field.
    Target9(u32),
    /// Red's presence bits of A, Y, M, T, H, right-aligned, start with a run
    /// of ones whose length `n` has `(n + 1) / 2 == level`.
    Win10(u32),
    /// The same on Green's presence bits.
    Target10(u32),
    /// Red's boss-to-aniki distance is `level` (mod 4).
    Win11(u64),
    /// Green's boss-to-aniki distance is `level` (mod 4).
    Target11(u64),
    /// Red's boss-to-aniki distance is `dist`.
    Win12(u64),
    /// Green's boss-to-aniki distance is `dist`.
    Target12(u64),
}

/// Presence bits 1, 3, 5, 7, 9 of the mask (Red's H, T, M, Y, A), packed
/// into bits 0..5.
pub open spec fn red_aligned(m: u64) -> u64 {
    ((m >> 1u64) & 1u64) | (((m >> 3u64) & 1u64) << 1u64) | (((m >> 5u64) & 1u64) << 2u64) | (((m
        >> 7u64) & 1u64) << 3u64) | (((m >> 9u64) & 1u64) << 4u64)
}

/// Presence bits 0, 2, 4, 6, 8 of the mask (Green's H, T, M, Y, A), packed
/// into bits 0..5.
pub open spec fn green_aligned(m: u64) -> u64 {
    (m & 1u64) | (((m >> 2u64) & 1u64) << 1u64) | (((m >> 4u64) & 1u64) << 2u64) | (((m >> 6u64)
        & 1u64) << 3u64) | (((m >> 8u64) & 1u64) << 4u64)
}

pub open spec fn level_of_run(aligned: u64) -> int {
    (u64_trailing_ones(aligned) + 1) / 2
}

impl HashFilter {
    /// Whether `hash` belongs to the partition.
    pub open spec fn spec_accepts(self, hash: u64) -> bool {
        match self {
            HashFilter::All => true,
            HashFilter::Win9(level) => popcount(project(presence_mask(hash), Color::Red)) % 3
                == level,
            HashFilter::Target9(level) => popcount(project(presence_mask(hash), Color::Green)) % 3
                == level,
            HashFilter::Win10(level) => level_of_run(red_aligned(presence_mask(hash))) == level,
            HashFilter::Target10(level) => level_of_run(green_aligned(presence_mask(hash)))
                == level,
            HashFilter::Win11(level) => spec_distance_a(hash, Color::Red) % 4 == level,
            HashFilter::Target11(level) => spec_distance_a(hash, Color::Green) % 4 == level,
            HashFilter::Win12(dist) => spec_distance_a(hash, Color::Red) == dist,
            HashFilter::Target12(dist) => spec_distance_a(hash, Color::Green) == dist,
        }
    }

    pub fn accepts(&self, hash: u64) -> (r: bool)
        ensures
            r == self.spec_accepts(hash),
    {
        match *self {
            HashFilter::All => true,
            HashFilter::Win9(level) => count_of(hash, Color::Red) % 3 == level,
            HashFilter::Target9(level) => count_of(hash, Color::Green) % 3 == level,
            HashFilter::Win10(level) => {
                let m = (hash >> 48u64) & 0xfffu64;
                let aligned = ((m >> 1u64) & 1u64) | (((m >> 3u64) & 1u64) << 1u64) | (((m
                    >> 5u64) & 1u64) << 2u64) | (((m >> 7u64) & 1u64) << 3u64) | (((m >> 9u64)
                    & 1u64) << 4u64);
                (aligned.trailing_ones() + 1) / 2 == level
            },
            HashFilter::Target10(level) => {
                let m = (hash >> 48u64) & 0xfffu64;
                let aligned = (m & 1u64) | (((m >> 2u64) & 1u64) << 1u64) | (((m >> 4u64) & 1u64)
                    << 2u64) | (((m >> 6u64) & 1u64) << 3u64) | (((m >> 8u64) & 1u64) << 4u64);
                (aligned.trailing_ones() + 1) / 2 == level
            },
            HashFilter::Win11(level) => distance_a(hash, Color::Red) % 4 == level,
            HashFilter::Target11(level) => distance_a(hash, Color::Green) % 4 == level,
            HashFilter::Win12(dist) => distance_a(hash, Color::Red) == dist,
            HashFilter::Target12(dist) => distance_a(hash, Color::Green) == dist,
        }
    }
}

fn count_of(hash: u64, color: Color) -> (r: u32)
    ensures
        r as nat == popcount(project(presence_mask(hash), color)),
{
    OnOff::new(hash).project_on(color).count_doves()
}

/// Wins of nine doves whose Red dove count is `level` modulo 3.
pub fn make_win_filter_9(level: u32) -> (r: HashFilter)
    ensures
        forall|h: u64| #[trigger]
            r.spec_accepts(h) == (popcount(project(presence_mask(h), Color::Red)) % 3 == level),
{
    HashFilter::Win9(level)
}

/// Targets whose Green dove count is `level` modulo 3.
pub fn make_target_filter_9(level: u32) -> (r: HashFilter)
    ensures
        forall|h: u64| #[trigger]
            r.spec_accepts(h) == (popcount(project(presence_mask(h), Color::Green)) % 3 == level),
{
    HashFilter::Target9(level)
}

/// Wins of ten doves by the run of Red's aligned presence bits.
pub fn make_win_filter_10(level: u32) -> (r: HashFilter)
    ensures
        forall|h: u64| #[trigger]
            r.spec_accepts(h) == (level_of_run(red_aligned(presence_mask(h))) == level),
{
    HashFilter::Win10(level)
}

/// Targets by the run of Green's aligned presence bits.
pub fn make_target_filter_10(level: u32) -> (r: HashFilter)
    ensures
        forall|h: u64| #[trigger]
            r.spec_accepts(h) == (level_of_run(green_aligned(presence_mask(h))) == level),
{
    HashFilter::Target10(level)
}

/// Wins of eleven doves by Red's boss-to-aniki distance modulo 4.
pub fn make_win_filter_11(level: u64) -> (r: HashFilter)
    ensures
        forall|h: u64| #[trigger] r.spec_accepts(h) == (spec_distance_a(h, Color::Red) % 4 == level),
{
    HashFilter::Win11(level)
}

/// Targets by Green's boss-to-aniki distance modulo 4.
pub fn make_target_filter_11(level: u64) -> (r: HashFilter)
    ensures
        forall|h: u64| #[trigger]
            r.spec_accepts(h) == (spec_distance_a(h, Color::Green) % 4 == level),
{
    HashFilter::Target11(level)
}

/// Wins of twelve doves whose Red boss-to-aniki distance is `dist`.
pub fn make_win_filter_12(dist: u64) -> (r: HashFilter)
    ensures
        forall|h: u64| #[trigger] r.spec_accepts(h) == (spec_distance_a(h, Color::Red) == dist),
{
    HashFilter::Win12(dist)
}

/// Targets whose Green boss-to-aniki distance is `dist`.
pub fn make_target_filter_12(dist: u64) -> (r: HashFilter)
    ensures
        forall|h: u64| #[trigger] r.spec_accepts(h) == (spec_distance_a(h, Color::Green) == dist),
{
    HashFilter::Target12(dist)
}

} // verus!
