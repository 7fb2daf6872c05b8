//! The set algebra of one analysis step: backstep, trim, redistribute,
//! gather. Reading and writing files is left to the caller; here sets and
//! hashes go in and come out.

use vstd::prelude::*;
use tokyodoves::collections::BoardSet;
use crate::board_set::{absorb_into, contents, hashes, insert, new_set};
use crate::filter_maker::HashFilter;
use crate::game::{
    backward_actions, bosses_on_field, doves_on_field, forward_actions, invariant_hash, performed,
    spec_is_win1_or_finished,
};
use crate::hashutil::Color;

verus! {

/// Number of buckets of a backstep: one per dove count 0..=12.
pub const NUM_BUCKETS: usize = 13;

/// Undoing action `i` of Green on `h0` gives a position that is not yet
/// decided, has `n` doves on the field, and hashes to `h1`.
pub open spec fn yields(h0: u64, i: int, n: nat, h1: u64) -> bool {
    let actions = backward_actions(h0, Color::Green, true, true, true);
    bosses_on_field(h0) && 0 <= i < actions.len() && {
        let b1 = performed(h0, actions[i]);
        !spec_is_win1_or_finished(b1, Color::Green) && doves_on_field(b1) == n && invariant_hash(
            b1,
            Color::Green,
        ) == h1
    }
}

/// The predecessors with `n` doves of the positions in `input`.
pub open spec fn backstep_bucket(input: Set<u64>, n: nat) -> Set<u64> {
    Set::new(|h1: u64| exists|h0: u64, i: int| input.contains(h0) && #[trigger] yields(h0, i, n, h1))
}

/// What a scan has found after the positions `hs[..j]` and the first `k`
/// actions of `hs[j]`.
pub open spec fn scanned(hs: Seq<u64>, j: int, k: int, n: nat) -> Set<u64> {
    Set::new(
        |h1: u64|
            exists|x: int, i: int|
                (0 <= x < j || (x == j && i < k)) && 0 <= x < hs.len() && #[trigger] yields(
                    hs[x],
                    i,
                    n,
                    h1,
                ),
    )
}

/// Every position from which Green's backward action leads, bucketed by
/// dove count: bucket `n` holds the invariant hashes of the predecessors
/// with `n` doves that are not already decided.
pub fn backstep_core(positions: &BoardSet) -> (r: Vec<BoardSet>)
    ensures
        r@.len() == NUM_BUCKETS,
        forall|n: int|
            0 <= n < NUM_BUCKETS ==> #[trigger] contents(r@[n]) == backstep_bucket(
                contents(*positions),
                n as nat,
            ),
        forall|n: int| 0 <= n < NUM_BUCKETS ==> #[trigger] contents(r@[n]).finite(),
{
    let hs = hashes(positions);
    let mut buckets: Vec<BoardSet> = Vec::new();
    let mut n: usize = 0;
    while n < NUM_BUCKETS
        invariant
            n <= NUM_BUCKETS,
            buckets@.len() == n,
            forall|m: int| 0 <= m < n ==> #[trigger] contents(buckets@[m]) == Set::<u64>::empty(),
        decreases NUM_BUCKETS - n,
    {
        buckets.push(new_set());
        n = n + 1;
    }
    proof {
        assert forall|m: int| 0 <= m < NUM_BUCKETS implies #[trigger] contents(buckets@[m])
            == scanned(hs@, 0, 0, m as nat) by {
            assert(scanned(hs@, 0, 0, m as nat) =~= Set::<u64>::empty());
        }
    }
    let mut j: usize = 0;
    while j < hs.len()
        invariant
            j <= hs@.len(),
            buckets@.len() == NUM_BUCKETS,
            forall|m: int|
                0 <= m < NUM_BUCKETS ==> #[trigger] contents(buckets@[m]) == scanned(
                    hs@,
                    j as int,
                    0,
                    m as nat,
                ),
            forall|m: int| 0 <= m < NUM_BUCKETS ==> #[trigger] contents(buckets@[m]).finite(),
        decreases hs@.len() - j,
    {
        let h0 = hs[j];
        if crate::game::has_both_bosses(h0) {
            let actions = crate::game::legal_actions_bwd(h0, Color::Green, true, true, true);
            let mut k: usize = 0;
            while k < actions.len()
                invariant
                    j < hs@.len(),
                    h0 == hs@[j as int],
                    bosses_on_field(h0),
                    actions@ == backward_actions(h0, Color::Green, true, true, true),
                    k <= actions@.len(),
                    buckets@.len() == NUM_BUCKETS,
                    forall|m: int|
                        0 <= m < NUM_BUCKETS ==> #[trigger] contents(buckets@[m]) == scanned(
                            hs@,
                            j as int,
                            k as int,
                            m as nat,
                        ),
                    forall|m: int| 0 <= m < NUM_BUCKETS ==> #[trigger] contents(buckets@[m]).finite(),
                decreases actions@.len() - k,
            {
                let action = actions[k];
                assert(backward_actions(h0, Color::Green, true, true, true).contains(action));
                let b1 = crate::game::perform(h0, action);
                let ghost old_buckets = buckets@;
                if !crate::game::is_win1_or_finished(b1, Color::Green) {
                    let n1 = crate::game::count_doves_on_field(b1);
                    let h1 = crate::game::to_invariant_u64(b1, Color::Green);
                    if n1 < NUM_BUCKETS {
                        insert(&mut buckets[n1], h1);
                    }
                    proof {
                        assert forall|m: int| 0 <= m < NUM_BUCKETS implies #[trigger] contents(
                            buckets@[m],
                        ) == scanned(hs@, j as int, k + 1, m as nat) by {
                            lemma_scanned_step(hs@, j as int, k as int, m as nat);
                            if m == n1 {
                                assert(yields(h0, k as int, m as nat, h1));
                                assert(scanned(hs@, j as int, k + 1, m as nat) =~= scanned(
                                    hs@,
                                    j as int,
                                    k as int,
                                    m as nat,
                                ).insert(h1));
                            } else {
                                assert(scanned(hs@, j as int, k + 1, m as nat) =~= scanned(
                                    hs@,
                                    j as int,
                                    k as int,
                                    m as nat,
                                ));
                            }
                        }
                    }
                } else {
                    proof {
                        assert forall|m: int| 0 <= m < NUM_BUCKETS implies #[trigger] contents(
                            buckets@[m],
                        ) == scanned(hs@, j as int, k + 1, m as nat) by {
                            lemma_scanned_step(hs@, j as int, k as int, m as nat);
                            assert(scanned(hs@, j as int, k + 1, m as nat) =~= scanned(
                                hs@,
                                j as int,
                                k as int,
                                m as nat,
                            ));
                        }
                    }
                }
                k = k + 1;
            }
            proof {
                assert forall|m: int| 0 <= m < NUM_BUCKETS implies #[trigger] contents(buckets@[m])
                    == scanned(hs@, j + 1, 0, m as nat) by {
                    assert(scanned(hs@, j + 1, 0, m as nat) =~= scanned(
                        hs@,
                        j as int,
                        k as int,
                        m as nat,
                    ));
                }
            }
        } else {
            proof {
                assert forall|m: int| 0 <= m < NUM_BUCKETS implies #[trigger] contents(buckets@[m])
                    == scanned(hs@, j + 1, 0, m as nat) by {
                    assert(scanned(hs@, j + 1, 0, m as nat) =~= scanned(
                        hs@,
                        j as int,
                        0,
                        m as nat,
                    ));
                }
            }
        }
        j = j + 1;
    }
    proof {
        assert forall|m: int| 0 <= m < NUM_BUCKETS implies #[trigger] contents(buckets@[m])
            == backstep_bucket(contents(*positions), m as nat) by {
            let input = contents(*positions);
            assert forall|h1: u64| #[trigger]
                scanned(hs@, hs@.len() as int, 0, m as nat).contains(h1) == backstep_bucket(
                    input,
                    m as nat,
                ).contains(h1) by {
                if scanned(hs@, hs@.len() as int, 0, m as nat).contains(h1) {
                    let (x, i) = choose|x: int, i: int|
                        (0 <= x < hs@.len() || (x == hs@.len() && i < 0)) && 0 <= x < hs@.len()
                            && #[trigger] yields(hs@[x], i, m as nat, h1);
                    assert(hs@.to_set().contains(hs@[x]));
                }
                if backstep_bucket(input, m as nat).contains(h1) {
                    let (h0, i) = choose|h0: u64, i: int|
                        input.contains(h0) && #[trigger] yields(h0, i, m as nat, h1);
                    assert(hs@.to_set().contains(h0));
                    let x = choose|x: int| 0 <= x < hs@.len() && hs@[x] == h0;
                    assert(yields(hs@[x], i, m as nat, h1));
                }
            }
            assert(scanned(hs@, hs@.len() as int, 0, m as nat) =~= backstep_bucket(
                input,
                m as nat,
            ));
        }
    }
    buckets
}

proof fn lemma_scanned_step(hs: Seq<u64>, j: int, k: int, n: nat)
    requires
        0 <= j < hs.len(),
        0 <= k,
    ensures
        forall|h1: u64|
            #[trigger] scanned(hs, j, k + 1, n).contains(h1) == (scanned(hs, j, k, n).contains(h1)
                || yields(hs[j], k, n, h1)),
{
    assert forall|h1: u64|
        #[trigger] scanned(hs, j, k + 1, n).contains(h1) == (scanned(hs, j, k, n).contains(h1)
            || yields(hs[j], k, n, h1)) by {
        if scanned(hs, j, k + 1, n).contains(h1) {
            let (x, i) = choose|x: int, i: int|
                (0 <= x < j || (x == j && i < k + 1)) && 0 <= x < hs.len() && #[trigger] yields(
                    hs[x],
                    i,
                    n,
                    h1,
                );
            if !(x == j && i == k) {
                assert(scanned(hs, j, k, n).contains(h1));
            }
        }
        if yields(hs[j], k, n, h1) {
            assert(scanned(hs, j, k + 1, n).contains(h1));
        }
    }
}

/// Removes from `target` every hash of `wins` (one batch of a win file).
pub fn thin_out_set(target: &mut BoardSet, wins: &Vec<u64>)
    ensures
        contents(*final(target)) == contents(*old(target)).difference(wins@.to_set()),
        contents(*old(target)).finite() ==> contents(*final(target)).finite(),
{
    let mut i: usize = 0;
    while i < wins.len()
        invariant
            i <= wins@.len(),
            contents(*target) == contents(*old(target)).difference(
                wins@.subrange(0, i as int).to_set(),
            ),
            contents(*old(target)).finite() ==> contents(*target).finite(),
        decreases wins@.len() - i,
    {
        proof {
            assert(wins@.subrange(0, i + 1) == wins@.subrange(0, i as int).push(wins@[i as int]));
            wins@.subrange(0, i as int).lemma_push_to_set_commute(wins@[i as int]);
        }
        crate::board_set::remove(target, wins[i]);
        proof {
            assert(contents(*target) =~= contents(*old(target)).difference(
                wins@.subrange(0, i + 1).to_set(),
            ));
        }
        i = i + 1;
    }
    assert(wins@.subrange(0, wins@.len() as int) == wins@);
}

/// Red's action `i` on `h0` (among those the flags select) leads to a
/// position that is decided, or whose hash is in `wins`.
pub open spec fn answered(
    h0: u64,
    i: int,
    wins: Set<u64>,
    put: bool,
    mv: bool,
    rm: bool,
) -> bool {
    let b1 = performed(h0, forward_actions(h0, Color::Red, put, mv, rm)[i]);
    spec_is_win1_or_finished(b1, Color::Green) || wins.contains(invariant_hash(b1, Color::Green))
}

/// `h0` is in the partition of `target`, and every action of Red that the
/// flags select leads to a decided position or into `wins`.
pub open spec fn spec_keeps(
    h0: u64,
    target: HashFilter,
    wins: Set<u64>,
    put: bool,
    mv: bool,
    rm: bool,
) -> bool {
    target.spec_accepts(h0) && bosses_on_field(h0) && forall|i: int|
        0 <= i < forward_actions(h0, Color::Red, put, mv, rm).len() ==> #[trigger] answered(
            h0,
            i,
            wins,
            put,
            mv,
            rm,
        )
}

/// Whether the candidate `h0` survives a trim on action against `wins`.
pub fn keeps_candidate(
    h0: u64,
    target: &HashFilter,
    wins: &BoardSet,
    put: bool,
    mv: bool,
    rm: bool,
) -> (r: bool)
    ensures
        r == spec_keeps(h0, *target, contents(*wins), put, mv, rm),
{
    if !target.accepts(h0) {
        return false;
    }
    if !crate::game::has_both_bosses(h0) {
        return false;
    }
    let actions = crate::game::legal_actions(h0, Color::Red, put, mv, rm);
    let mut i: usize = 0;
    while i < actions.len()
        invariant
            bosses_on_field(h0),
            actions@ == forward_actions(h0, Color::Red, put, mv, rm),
            i <= actions@.len(),
            forall|j: int| 0 <= j < i ==> #[trigger] answered(h0, j, contents(*wins), put, mv, rm),
        decreases actions@.len() - i,
    {
        let action = actions[i];
        assert(forward_actions(h0, Color::Red, put, mv, rm).contains(action));
        let b1 = crate::game::perform(h0, action);
        if !crate::game::is_win1_or_finished(b1, Color::Green) {
            let h1 = crate::game::to_invariant_u64(b1, Color::Green);
            if !crate::board_set::contains(wins, h1) {
                assert(!answered(h0, i as int, contents(*wins), put, mv, rm));
                return false;
            }
        }
        i = i + 1;
    }
    true
}

/// The candidates that survive a trim on action against `wins`.
pub open spec fn survivors(
    candidates: Set<u64>,
    target: HashFilter,
    wins: Set<u64>,
    put: bool,
    mv: bool,
    rm: bool,
) -> Set<u64> {
    candidates.filter(|h0: u64| spec_keeps(h0, target, wins, put, mv, rm))
}

/// Keeps of `candidates` (one batch of a source shard) those that survive a
/// trim on action against `wins`.
pub fn create_thinned_set_core(
    candidates: &Vec<u64>,
    target: &HashFilter,
    wins: &BoardSet,
    put: bool,
    mv: bool,
    rm: bool,
) -> (r: BoardSet)
    ensures
        contents(r) == survivors(candidates@.to_set(), *target, contents(*wins), put, mv, rm),
        contents(r).finite(),
{
    let mut kept = new_set();
    let mut i: usize = 0;
    while i < candidates.len()
        invariant
            i <= candidates@.len(),
            contents(kept) == survivors(
                candidates@.subrange(0, i as int).to_set(),
                *target,
                contents(*wins),
                put,
                mv,
                rm,
            ),
            contents(kept).finite(),
        decreases candidates@.len() - i,
    {
        let h0 = candidates[i];
        proof {
            assert(candidates@.subrange(0, i + 1) == candidates@.subrange(0, i as int).push(h0));
            candidates@.subrange(0, i as int).lemma_push_to_set_commute(h0);
        }
        let keep = keeps_candidate(h0, target, wins, put, mv, rm);
        if keep {
            insert(&mut kept, h0);
        }
        proof {
            assert(contents(kept) =~= survivors(
                candidates@.subrange(0, i + 1).to_set(),
                *target,
                contents(*wins),
                put,
                mv,
                rm,
            ));
        }
        i = i + 1;
    }
    assert(candidates@.subrange(0, candidates@.len() as int) == candidates@);
    kept
}

/// A trim on action keeps a subset of its input; of every position kept,
/// each successor is decided or in `wins`; every position of the partition
/// that is dropped has a successor that is neither.
pub proof fn lemma_trim_on_action(
    input: Set<u64>,
    target: HashFilter,
    wins: Set<u64>,
    put: bool,
    mv: bool,
    rm: bool,
)
    ensures
        survivors(input, target, wins, put, mv, rm).subset_of(input),
        forall|h0: u64, i: int|
            survivors(input, target, wins, put, mv, rm).contains(h0) && 0 <= i < forward_actions(
                h0,
                Color::Red,
                put,
                mv,
                rm,
            ).len() ==> #[trigger] answered(h0, i, wins, put, mv, rm),
        forall|h0: u64|
            #![trigger survivors(input, target, wins, put, mv, rm).contains(h0)]
            input.contains(h0) && !survivors(input, target, wins, put, mv, rm).contains(h0)
                && target.spec_accepts(h0) && bosses_on_field(h0) ==> exists|i: int|
                0 <= i < forward_actions(h0, Color::Red, put, mv, rm).len() && !#[trigger] answered(
                    h0,
                    i,
                    wins,
                    put,
                    mv,
                    rm,
                ),
{
}

/// The hashes held by any of `sets`.
pub open spec fn union_of(sets: Seq<BoardSet>) -> Set<u64> {
    Set::new(|h: u64| exists|i: int| 0 <= i < sets.len() && #[trigger] contents(sets[i]).contains(h))
}

proof fn lemma_union_of_push(sets: Seq<BoardSet>, s: BoardSet)
    ensures
        union_of(sets.push(s)) == union_of(sets).union(contents(s)),
{
    assert forall|h: u64| #[trigger] union_of(sets.push(s)).contains(h) == union_of(sets).union(
        contents(s),
    ).contains(h) by {
        if union_of(sets.push(s)).contains(h) {
            let i = choose|i: int|
                0 <= i < sets.push(s).len() && #[trigger] contents(sets.push(s)[i]).contains(h);
            if i < sets.len() {
                assert(contents(sets[i]).contains(h));
            }
        }
        if union_of(sets).contains(h) {
            let i = choose|i: int| 0 <= i < sets.len() && #[trigger] contents(sets[i]).contains(h);
            assert(contents(sets.push(s)[i]).contains(h));
        }
        if contents(s).contains(h) {
            assert(contents(sets.push(s)[sets.len() as int]).contains(h));
        }
    }
    assert(union_of(sets.push(s)) =~= union_of(sets).union(contents(s)));
}

/// `ceil(total / num)`.
pub open spec fn spec_chunk_size(total: nat, num: nat) -> nat
    recommends
        num > 0,
{
    ((total + num - 1) / (num as int)) as nat
}

/// `ceil(total / num)`: the size of each of `num` near-equal shares.
pub fn chunk_size(total: usize, num: usize) -> (r: usize)
    requires
        num > 0,
    ensures
        r == spec_chunk_size(total as nat, num as nat),
        total <= r * num,
{
    let q = total / num;
    assert(total % num != 0 ==> q < total) by (nonlinear_arith)
        requires
            num > 0,
            q == total / num,
    ;
    let r = if total % num == 0 {
        q
    } else {
        q + 1
    };
    assert(r == spec_chunk_size(total as nat, num as nat) && total <= r * num) by (nonlinear_arith)
        requires
            num > 0,
            q == total / num,
            r == (if total % num == 0 {
                q as int
            } else {
                q + 1
            }),
    ;
    r
}

/// The share of piece `i` when `len` items are cut into pieces of `chunk`.
pub open spec fn share(len: nat, chunk: nat, i: nat) -> nat {
    if len <= i * chunk {
        0
    } else if len - i * chunk < chunk {
        (len - i * chunk) as nat
    } else {
        chunk
    }
}

/// Cuts `set` into `num` disjoint pieces of `ceil(len / num)` hashes each,
/// the last ones smaller or empty.
pub fn split_set_into(set: BoardSet, num: usize) -> (r: Vec<BoardSet>)
    requires
        num > 0,
        contents(set).finite(),
    ensures
        r@.len() == num,
        union_of(r@) == contents(set),
        forall|i: int, j: int|
            0 <= i < j < num ==> #[trigger] contents(r@[i]).disjoint(#[trigger] contents(r@[j])),
        forall|i: int|
            0 <= i < num ==> #[trigger] contents(r@[i]).len() == share(
                contents(set).len(),
                spec_chunk_size(contents(set).len(), num as nat),
                i as nat,
            ),
        forall|i: int| 0 <= i < num ==> #[trigger] contents(r@[i]).finite(),
{
    let ghost whole = contents(set);
    let chunk = chunk_size(crate::board_set::len(&set), num);
    let mut rest = set;
    let mut pieces: Vec<BoardSet> = Vec::new();
    let mut i: usize = 0;
    while i < num
        invariant
            i <= num,
            whole.finite(),
            chunk == spec_chunk_size(whole.len(), num as nat),
            pieces@.len() == i,
            union_of(pieces@).union(contents(rest)) == whole,
            union_of(pieces@).disjoint(contents(rest)),
            contents(rest).finite(),
            contents(rest).len() == (if whole.len() <= i * chunk {
                0
            } else {
                (whole.len() - i * chunk) as nat
            }),
            forall|a: int, b: int|
                0 <= a < b < i ==> #[trigger] contents(pieces@[a]).disjoint(
                    #[trigger] contents(pieces@[b]),
                ),
            forall|a: int|
                0 <= a < i ==> #[trigger] contents(pieces@[a]).len() == share(
                    whole.len(),
                    chunk as nat,
                    a as nat,
                ),
            forall|a: int| 0 <= a < i ==> #[trigger] contents(pieces@[a]).finite(),
        decreases num - i,
    {
        let ghost before = pieces@;
        let ghost rest0 = contents(rest);
        let (piece, remainder) = crate::board_set::split(rest, chunk);
        proof {
            lemma_union_of_push(before, piece);
            assert forall|a: int| 0 <= a < i implies #[trigger] contents(before[a]).disjoint(
                contents(piece),
            ) by {
                assert forall|h: u64| contents(piece).contains(h) implies !contents(
                    before[a],
                ).contains(h) by {
                    assert(rest0.contains(h));
                    if contents(before[a]).contains(h) {
                        assert(union_of(before).contains(h));
                    }
                }
            }
            vstd::set_lib::lemma_set_disjoint_lens(contents(piece), contents(remainder));
            assert(contents(piece) + contents(remainder) == rest0);
            assert(union_of(before.push(piece)).union(contents(remainder)) =~= whole);
            assert(union_of(before.push(piece)).disjoint(contents(remainder)));
            assert(contents(piece).len() == share(whole.len(), chunk as nat, i as nat)
                && contents(remainder).len() == (if whole.len() <= (i + 1) * chunk {
                0
            } else {
                (whole.len() - (i + 1) * chunk) as nat
            })) by (nonlinear_arith)
                requires
                    contents(piece).len() + contents(remainder).len() == rest0.len(),
                    contents(piece).len() == (if chunk < rest0.len() {
                        chunk as nat
                    } else {
                        rest0.len()
                    }),
                    rest0.len() == (if whole.len() <= i * chunk {
                        0
                    } else {
                        (whole.len() - i * chunk) as nat
                    }),
            ;
        }
        pieces.push(piece);
        rest = remainder;
        i = i + 1;
    }
    proof {
        assert(whole.len() <= num * chunk) by (nonlinear_arith)
            requires
                num > 0,
                chunk == spec_chunk_size(whole.len(), num as nat),
        ;
        assert(contents(rest).len() == 0);
        assert(union_of(pieces@) =~= whole);
    }
    pieces
}

/// Bucket `n` of the workers `lo..` of `parts`, united.
pub open spec fn bucket_union(parts: Seq<Vec<BoardSet>>, lo: int, n: int) -> Set<u64> {
    Set::new(
        |h: u64|
            exists|w: int| lo <= w < parts.len() && #[trigger] contents(parts[w]@[n]).contains(h),
    )
}

/// Unites the buckets of all workers: bucket `n` of the result holds every
/// hash of bucket `n` of any worker.
pub fn merge_buckets(parts: Vec<Vec<BoardSet>>) -> (r: Vec<BoardSet>)
    requires
        forall|w: int| 0 <= w < parts@.len() ==> #[trigger] parts@[w]@.len() == NUM_BUCKETS,
        forall|w: int, n: int|
            0 <= w < parts@.len() && 0 <= n < NUM_BUCKETS ==> #[trigger] contents(
                parts@[w]@[n],
            ).finite(),
    ensures
        r@.len() == NUM_BUCKETS,
        forall|n: int|
            0 <= n < NUM_BUCKETS ==> #[trigger] contents(r@[n]) == bucket_union(parts@, 0, n),
        forall|n: int| 0 <= n < NUM_BUCKETS ==> #[trigger] contents(r@[n]).finite(),
{
    let ghost all = parts@;
    let mut parts = parts;
    let mut merged: Vec<BoardSet> = Vec::new();
    let mut n: usize = 0;
    while n < NUM_BUCKETS
        invariant
            n <= NUM_BUCKETS,
            merged@.len() == n,
            forall|m: int| 0 <= m < n ==> #[trigger] contents(merged@[m]) == Set::<u64>::empty(),
        decreases NUM_BUCKETS - n,
    {
        merged.push(new_set());
        n = n + 1;
    }
    proof {
        assert forall|m: int| 0 <= m < NUM_BUCKETS implies #[trigger] contents(merged@[m])
            == bucket_union(all, all.len() as int, m) by {
            assert(bucket_union(all, all.len() as int, m) =~= Set::<u64>::empty());
        }
    }
    while parts.len() > 0
        invariant
            parts@ == all.subrange(0, parts@.len() as int),
            parts@.len() <= all.len(),
            forall|w: int| 0 <= w < all.len() ==> #[trigger] all[w]@.len() == NUM_BUCKETS,
            forall|w: int, m: int|
                0 <= w < all.len() && 0 <= m < NUM_BUCKETS ==> #[trigger] contents(
                    all[w]@[m],
                ).finite(),
            merged@.len() == NUM_BUCKETS,
            forall|m: int|
                0 <= m < NUM_BUCKETS ==> #[trigger] contents(merged@[m]) == bucket_union(
                    all,
                    parts@.len() as int,
                    m,
                ),
            forall|m: int| 0 <= m < NUM_BUCKETS ==> #[trigger] contents(merged@[m]).finite(),
        decreases parts@.len(),
    {
        let w = parts.len() - 1;
        let mut worker = parts.pop().unwrap();
        let ghost wv = worker@;
        assert(wv == all[w as int]@);
        while worker.len() > 0
            invariant
                wv == all[w as int]@,
                0 <= w < all.len(),
                worker@.len() <= wv.len(),
                worker@ == wv.subrange(0, worker@.len() as int),
                wv.len() == NUM_BUCKETS,
                forall|m: int| 0 <= m < NUM_BUCKETS ==> #[trigger] contents(wv[m]).finite(),
                merged@.len() == NUM_BUCKETS,
                forall|m: int|
                    0 <= m < NUM_BUCKETS ==> #[trigger] contents(merged@[m]) == if m
                        < worker@.len() {
                        bucket_union(all, w + 1, m)
                    } else {
                        bucket_union(all, w + 1, m).union(contents(wv[m]))
                    },
                forall|m: int| 0 <= m < NUM_BUCKETS ==> #[trigger] contents(merged@[m]).finite(),
            decreases worker@.len(),
        {
            let m = worker.len() - 1;
            let part = worker.pop().unwrap();
            assert(part == wv[m as int]);
            absorb_into(&mut merged[m], part);
        }
        proof {
            assert forall|m: int| 0 <= m < NUM_BUCKETS implies #[trigger] contents(merged@[m])
                == bucket_union(all, w as int, m) by {
                assert forall|h: u64| #[trigger]
                    bucket_union(all, w as int, m).contains(h) == bucket_union(
                        all,
                        w + 1,
                        m,
                    ).union(contents(wv[m])).contains(h) by {
                    if bucket_union(all, w as int, m).contains(h) {
                        let v = choose|v: int|
                            w <= v < all.len() && #[trigger] contents(all[v]@[m]).contains(h);
                        if v > w {
                            assert(bucket_union(all, w + 1, m).contains(h));
                        }
                    }
                    if bucket_union(all, w + 1, m).contains(h) {
                        let v = choose|v: int|
                            w + 1 <= v < all.len() && #[trigger] contents(all[v]@[m]).contains(h);
                        assert(contents(all[v]@[m]).contains(h));
                    }
                    if contents(wv[m]).contains(h) {
                        assert(contents(all[w as int]@[m]).contains(h));
                    }
                }
                assert(bucket_union(all, w as int, m) =~= bucket_union(all, w + 1, m).union(
                    contents(wv[m]),
                ));
            }
        }
    }
    merged
}

/// Unites all `parts` into one set.
pub fn gather(parts: Vec<BoardSet>) -> (r: BoardSet)
    requires
        forall|i: int| 0 <= i < parts@.len() ==> #[trigger] contents(parts@[i]).finite(),
    ensures
        contents(r) == union_of(parts@),
        contents(r).finite(),
{
    let ghost all = parts@;
    let mut parts = parts;
    let mut set = new_set();
    proof {
        assert(union_of(all.subrange(all.len() as int, all.len() as int)) =~= Set::<u64>::empty());
    }
    while parts.len() > 0
        invariant
            parts@ == all.subrange(0, parts@.len() as int),
            parts@.len() <= all.len(),
            forall|i: int| 0 <= i < all.len() ==> #[trigger] contents(all[i]).finite(),
            contents(set) == union_of(all.subrange(parts@.len() as int, all.len() as int)),
            contents(set).finite(),
        decreases parts@.len(),
    {
        let i = parts.len() - 1;
        let part = parts.pop().unwrap();
        let ghost old_set = contents(set);
        absorb_into(&mut set, part);
        proof {
            let tail = all.subrange(i + 1, all.len() as int);
            let tail2 = all.subrange(i as int, all.len() as int);
            assert forall|h: u64| #[trigger] union_of(tail2).contains(h) == (union_of(tail).contains(
                h,
            ) || contents(all[i as int]).contains(h)) by {
                if union_of(tail2).contains(h) {
                    let x = choose|x: int|
                        0 <= x < tail2.len() && #[trigger] contents(tail2[x]).contains(h);
                    if x > 0 {
                        assert(contents(tail[x - 1]).contains(h));
                    }
                }
                if union_of(tail).contains(h) {
                    let x = choose|x: int|
                        0 <= x < tail.len() && #[trigger] contents(tail[x]).contains(h);
                    assert(contents(tail2[x + 1]).contains(h));
                }
                if contents(all[i as int]).contains(h) {
                    assert(contents(tail2[0]).contains(h));
                }
            }
            assert(contents(set) =~= union_of(tail2));
        }
    }
    assert(all.subrange(0, all.len() as int) == all);
    set
}

/// Redistributes a stream of sets into `num_result_files` shards of
/// `ceil(total / num_result_files)` hashes each (the last ones smaller),
/// `total` being an upper bound of the number of hashes pushed.
pub struct Redistributor {
    set: BoardSet,
    chunk: usize,
    num_result_files: usize,
    files_written: usize,
    remaining: usize,
    total: Ghost<nat>,
    seen: Ghost<Set<u64>>,
    emitted: Ghost<Set<u64>>,
}

impl Redistributor {
    /// Size of every shard emitted by `push`.
    pub closed spec fn spec_chunk(&self) -> nat {
        self.chunk as nat
    }

    pub closed spec fn spec_num_result_files(&self) -> nat {
        self.num_result_files as nat
    }

    /// Shards emitted so far.
    pub closed spec fn spec_files_written(&self) -> nat {
        self.files_written as nat
    }

    /// How many more hashes may be pushed.
    pub closed spec fn spec_remaining(&self) -> nat {
        self.remaining as nat
    }

    /// Every hash pushed so far.
    pub closed spec fn seen(&self) -> Set<u64> {
        self.seen@
    }

    /// Every hash emitted so far.
    pub closed spec fn emitted(&self) -> Set<u64> {
        self.emitted@
    }

    /// Hashes pushed and not yet emitted.
    pub closed spec fn pending(&self) -> Set<u64> {
        contents(self.set)
    }

    pub closed spec fn wf(&self) -> bool {
        &&& self.num_result_files > 0
        &&& self.chunk == spec_chunk_size(self.total@, self.num_result_files as nat)
        &&& self.total@ <= self.chunk * self.num_result_files
        &&& contents(self.set).finite()
        &&& (contents(self.set).len() < self.chunk || contents(self.set).len() == 0)
        &&& self.files_written <= self.num_result_files
        &&& self.files_written * self.chunk + contents(self.set).len() + self.remaining
            <= self.total@
        &&& self.emitted@.union(contents(self.set)) == self.seen@
    }

    /// Ready to take at most `total` hashes.
    pub fn new(total: usize, num_result_files: usize) -> (r: Self)
        requires
            num_result_files > 0,
        ensures
            r.wf(),
            r.spec_chunk() == spec_chunk_size(total as nat, num_result_files as nat),
            r.spec_num_result_files() == num_result_files,
            r.spec_files_written() == 0,
            r.spec_remaining() == total,
            r.seen() == Set::<u64>::empty(),
            r.emitted() == Set::<u64>::empty(),
            r.pending() == Set::<u64>::empty(),
    {
        let chunk = chunk_size(total, num_result_files);
        let r = Redistributor {
            set: new_set(),
            chunk,
            num_result_files,
            files_written: 0,
            remaining: total,
            total: Ghost(total as nat),
            seen: Ghost(Set::empty()),
            emitted: Ghost(Set::empty()),
        };
        assert(r.emitted@.union(contents(r.set)) =~= r.seen@);
        r
    }

    /// Size of every full shard.
    pub fn chunk(&self) -> (r: usize)
        ensures
            r == self.spec_chunk(),
    {
        self.chunk
    }

    /// How many more hashes may be pushed.
    pub fn remaining(&self) -> (r: usize)
        ensures
            r == self.spec_remaining(),
    {
        self.remaining
    }

    /// Shards emitted so far.
    pub fn files_written(&self) -> (r: usize)
        ensures
            r == self.spec_files_written(),
    {
        self.files_written
    }

    /// Takes the hashes of `full_set` and returns, in order, the shards that
    /// became full; each holds exactly `chunk` hashes.
    pub fn push(&mut self, full_set: BoardSet) -> (r: Vec<BoardSet>)
        requires
            old(self).wf(),
            contents(full_set).finite(),
            contents(full_set).len() <= old(self).spec_remaining(),
        ensures
            final(self).wf(),
            final(self).spec_chunk() == old(self).spec_chunk(),
            final(self).spec_num_result_files() == old(self).spec_num_result_files(),
            final(self).spec_remaining() == old(self).spec_remaining() - contents(full_set).len(),
            final(self).spec_files_written() == old(self).spec_files_written() + r@.len(),
            final(self).seen() == old(self).seen().union(contents(full_set)),
            final(self).emitted() == old(self).emitted().union(union_of(r@)),
            union_of(r@).union(final(self).pending()) == old(self).pending().union(
                contents(full_set),
            ),
            forall|i: int| 0 <= i < r@.len() ==> #[trigger] contents(r@[i]).len() == old(
                self,
            ).spec_chunk(),
            forall|i: int| 0 <= i < r@.len() ==> #[trigger] contents(r@[i]).finite(),
    {
        let ghost old_pending = contents(self.set);
        let full_len = crate::board_set::len(&full_set);
        self.remaining = self.remaining - full_len;
        self.seen = Ghost(self.seen@.union(contents(full_set)));
        let mut set = new_set();
        std::mem::swap(&mut set, &mut self.set);
        let mut full = full_set;
        let mut out: Vec<BoardSet> = Vec::new();
        let ghost total = self.total@;
        let ghost seen = self.seen@;
        let ghost emitted0 = self.emitted@;
        let chunk = self.chunk;
        let num = self.num_result_files;
        let mut fw = self.files_written;
        proof {
            assert(emitted0.union(union_of(out@)) =~= emitted0);
            assert(union_of(out@).union(contents(set)).union(contents(full)) =~= old_pending.union(
                contents(full_set),
            ));
        }
        while crate::board_set::len(&full) > 0
            invariant
                num > 0,
                total <= chunk * num,
                contents(set).finite(),
                contents(full).finite(),
                contents(set).len() < chunk || contents(set).len() == 0,
                fw <= num,
                fw * chunk + contents(set).len() + contents(full).len() + self.remaining <= total,
                fw == old(self).files_written + out@.len(),
                emitted0.union(union_of(out@)).union(contents(set)).union(contents(full)) == seen,
                union_of(out@).union(contents(set)).union(contents(full)) == old_pending.union(
                    contents(full_set),
                ),
                forall|i: int| 0 <= i < out@.len() ==> #[trigger] contents(out@[i]).len() == chunk,
                forall|i: int| 0 <= i < out@.len() ==> #[trigger] contents(out@[i]).finite(),
            decreases contents(full).len(),
        {
            proof {
                assert(chunk > 0) by (nonlinear_arith)
                    requires
                        total <= chunk * num,
                        fw * chunk + contents(full).len() <= total,
                        contents(full).len() > 0,
                ;
            }
            let k = chunk - crate::board_set::len(&set);
            let ghost set0 = contents(set);
            let ghost full0 = contents(full);
            let (tmp, rest) = crate::board_set::split(full, k);
            proof {
                vstd::set_lib::lemma_set_disjoint_lens(contents(tmp), contents(rest));
                assert(contents(tmp) + contents(rest) == full0);
                vstd::set_lib::lemma_len_union(set0, contents(tmp));
            }
            absorb_into(&mut set, tmp);
            full = rest;
            proof {
                assert(union_of(out@).union(contents(set)).union(contents(full)) =~= old_pending.union(
                    contents(full_set),
                ));
                assert(emitted0.union(union_of(out@)).union(contents(set)).union(contents(full))
                    =~= seen);
            }
            if crate::board_set::len(&set) >= chunk {
                let ghost before = out@;
                let mut done = new_set();
                std::mem::swap(&mut done, &mut set);
                proof {
                    lemma_union_of_push(before, done);
                    assert(fw + 1 <= num) by (nonlinear_arith)
                        requires
                            chunk > 0,
                            total <= chunk * num,
                            fw * chunk + chunk <= total,
                    ;
                    assert((fw + 1) * chunk == fw * chunk + chunk) by (nonlinear_arith);
                }
                out.push(done);
                fw = fw + 1;
                proof {
                    assert(union_of(out@).union(contents(set)).union(contents(full))
                        =~= old_pending.union(contents(full_set)));
                    assert(emitted0.union(union_of(out@)).union(contents(set)).union(contents(full))
                        =~= seen);
                }
            }
        }
        proof {
            assert(contents(full) =~= Set::<u64>::empty());
        }
        self.set = set;
        self.files_written = fw;
        self.emitted = Ghost(emitted0.union(union_of(out@)));
        proof {
            assert(self.emitted@.union(contents(self.set)) =~= self.seen@);
            assert(union_of(out@).union(contents(self.set)) =~= old_pending.union(contents(full_set)));
        }
        out
    }

    /// Emits what is pending as one more shard, then empty shards, so that
    /// `num_result_files` shards are written in all; every shard returned
    /// holds fewer than `chunk` hashes.
    pub fn finish(self) -> (r: Vec<BoardSet>)
        requires
            self.wf(),
        ensures
            self.spec_files_written() + r@.len() == self.spec_num_result_files(),
            union_of(r@) == self.pending(),
            self.emitted().union(union_of(r@)) == self.seen(),
            forall|i: int|
                0 <= i < r@.len() ==> #[trigger] contents(r@[i]).len() < self.spec_chunk()
                    || contents(r@[i]).len() == 0,
            forall|i: int| 0 <= i < r@.len() ==> #[trigger] contents(r@[i]).finite(),
    {
        let ghost pending = contents(self.set);
        let num = self.num_result_files;
        let mut fw = self.files_written;
        let mut out: Vec<BoardSet> = Vec::new();
        if fw < num {
            proof {
                lemma_union_of_push(out@, self.set);
                assert(union_of(out@) =~= Set::<u64>::empty());
            }
            out.push(self.set);
            fw = fw + 1;
        } else {
            proof {
                assert(contents(self.set).len() == 0) by (nonlinear_arith)
                    requires
                        fw == num,
                        self.total@ <= self.chunk * num,
                        fw * self.chunk + contents(self.set).len() <= self.total@,
                ;
                assert(union_of(out@) =~= pending) by {
                    vstd::set_lib::lemma_set_empty_equivalency_len(pending);
                }
            }
        }
        while fw < num
            invariant
                fw <= num,
                fw + self.files_written >= self.files_written,
                fw - self.files_written == out@.len(),
                union_of(out@) == pending,
                forall|i: int|
                    0 <= i < out@.len() ==> #[trigger] contents(out@[i]).len() < self.chunk
                        || contents(out@[i]).len() == 0,
                forall|i: int| 0 <= i < out@.len() ==> #[trigger] contents(out@[i]).finite(),
            decreases num - fw,
        {
            let empty = new_set();
            proof {
                lemma_union_of_push(out@, empty);
                assert(pending.union(contents(empty)) =~= pending);
            }
            out.push(empty);
            fw = fw + 1;
        }
        out
    }
}

/// What a redistribution emits, with what `finish` returns, is exactly what
/// was pushed into it; it never writes more than `num_result_files` shards.
pub proof fn lemma_redistribute_conserves(r: Redistributor, last: Seq<BoardSet>)
    requires
        r.wf(),
        union_of(last) == r.pending(),
    ensures
        r.emitted().union(union_of(last)) == r.seen(),
        r.spec_files_written() <= r.spec_num_result_files(),
{
}

/// Adds to `set` the hashes of `batch` (one batch read from a file) that
/// `filter` accepts, and no other.
pub fn load_filter_batch(set: &mut BoardSet, batch: &Vec<u64>, filter: &HashFilter)
    ensures
        contents(*final(set)) == contents(*old(set)).union(
            batch@.to_set().filter(|h: u64| filter.spec_accepts(h)),
        ),
        contents(*old(set)).finite() ==> contents(*final(set)).finite(),
{
    let mut i: usize = 0;
    while i < batch.len()
        invariant
            i <= batch@.len(),
            contents(*set) == contents(*old(set)).union(
                batch@.subrange(0, i as int).to_set().filter(|h: u64| filter.spec_accepts(h)),
            ),
            contents(*old(set)).finite() ==> contents(*set).finite(),
        decreases batch@.len() - i,
    {
        let h = batch[i];
        proof {
            assert(batch@.subrange(0, i + 1) == batch@.subrange(0, i as int).push(h));
            batch@.subrange(0, i as int).lemma_push_to_set_commute(h);
        }
        if filter.accepts(h) {
            insert(set, h);
        }
        proof {
            assert(contents(*set) =~= contents(*old(set)).union(
                batch@.subrange(0, i + 1).to_set().filter(|h: u64| filter.spec_accepts(h)),
            ));
        }
        i = i + 1;
    }
    assert(batch@.subrange(0, batch@.len() as int) == batch@);
}

/// A trim against wins keeps a subset of its input that meets no win and
/// misses no position that is not a win.
pub proof fn lemma_trim_simply(input: Set<u64>, wins: Set<u64>)
    ensures
        input.difference(wins).subset_of(input),
        input.difference(wins).disjoint(wins),
        forall|h: u64| input.contains(h) && !wins.contains(h) ==> #[trigger] input.difference(
            wins,
        ).contains(h),
{
}

} // verus!
