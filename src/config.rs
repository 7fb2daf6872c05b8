//! Decisions taken before any work of a step begins: which kind of step
//! it is, which actions a trim examines, how the win oracle is partitioned,
//! and which trims run for each dove count of the wins.

use vstd::prelude::*;
use crate::filter_maker::HashFilter;

verus! {

/// A configuration that no step can run with.
#[derive(Debug, Clone, Copy, PartialEq, Eq, Hash, Structural)]
pub enum ConfigError {
    /// Steps start at 2.
    InvalidNumFrom,
    /// Dove counts are 2..=12.
    InvalidNumDoves,
    /// A trim goes between dove counts that differ by at most one.
    InvalidTransition,
}

/// What a step derives.
#[derive(Debug, Clone, Copy, PartialEq, Eq, Hash, Structural)]
pub enum StepKind {
    /// From losses to wins (the step index is even).
    LoseToWin,
    /// From wins to losses (the step index is odd).
    WinToLose,
}

pub open spec fn spec_step_kind(num_from: nat) -> Result<StepKind, ConfigError> {
    if num_from < 2 {
        Err(ConfigError::InvalidNumFrom)
    } else if num_from % 2 == 0 {
        Ok(StepKind::LoseToWin)
    } else {
        Ok(StepKind::WinToLose)
    }
}

/// The kind of step `num_from -> num_from + 1`.
pub fn step_kind(num_from: usize) -> (r: Result<StepKind, ConfigError>)
    ensures
        r == spec_step_kind(num_from as nat),
{
    if num_from < 2 {
        Err(ConfigError::InvalidNumFrom)
    } else if num_from % 2 == 0 {
        Ok(StepKind::LoseToWin)
    } else {
        Ok(StepKind::WinToLose)
    }
}

/// Which kinds of action a trim on action examines.
#[derive(Debug, Clone, Copy, PartialEq, Eq, Hash, Structural)]
pub struct ActionFlags {
    pub put: bool,
    pub mv: bool,
    pub rm: bool,
}

pub open spec fn valid_num_doves(n: nat) -> bool {
    2 <= n <= 12
}

pub open spec fn spec_action_flags(from: nat, to: nat) -> Result<ActionFlags, ConfigError> {
    if !valid_num_doves(from) || !valid_num_doves(to) || from + 2 <= to || to + 2 <= from {
        Err(ConfigError::InvalidTransition)
    } else {
        Ok(ActionFlags { put: from < to, mv: from == to, rm: from > to })
    }
}

/// The actions that lead from `num_doves_from` doves to `num_doves_to`:
/// puts add one, moves keep the count, removes take one.
pub fn action_flags(num_doves_from: usize, num_doves_to: usize) -> (r: Result<
    ActionFlags,
    ConfigError,
>)
    ensures
        r == spec_action_flags(num_doves_from as nat, num_doves_to as nat),
{
    if num_doves_from < 2 || num_doves_from > 12 || num_doves_to < 2 || num_doves_to > 12
        || num_doves_from + 2 <= num_doves_to || num_doves_to + 2 <= num_doves_from {
        Err(ConfigError::InvalidTransition)
    } else {
        Ok(
            ActionFlags {
                put: num_doves_from < num_doves_to,
                mv: num_doves_from == num_doves_to,
                rm: num_doves_from > num_doves_to,
            },
        )
    }
}

/// The buckets a backstep from `num_doves` doves writes:
/// `max(2, n - 1) ..= min(12, n + 1)`.
pub fn backstep_bucket_range(num_doves: usize) -> (r: (usize, usize))
    requires
        valid_num_doves(num_doves as nat),
    ensures
        r.0 == (if num_doves >= 3 {
            num_doves - 1
        } else {
            2
        }),
        r.1 == (if num_doves <= 11 {
            num_doves + 1
        } else {
            12
        }),
{
    let lo = if num_doves >= 3 {
        num_doves - 1
    } else {
        2
    };
    let hi = if num_doves <= 11 {
        num_doves + 1
    } else {
        12
    };
    (lo, hi)
}

/// The partitions of the win oracle for wins of `n` doves: pairs of a
/// filter on wins and a filter on the candidates they answer.
pub open spec fn spec_partitions(n: nat, split: bool) -> Seq<(HashFilter, HashFilter)> {
    if split && n == 9 {
        Seq::new(3, |l: int| (HashFilter::Win9(l as u32), HashFilter::Target9(l as u32)))
    } else if split && n == 10 {
        Seq::new(4, |l: int| (HashFilter::Win10(l as u32), HashFilter::Target10(l as u32)))
    } else if split && n == 11 {
        Seq::new(4, |l: int| (HashFilter::Win11(l as u64), HashFilter::Target11(l as u64)))
    } else if split && n == 12 {
        Seq::new(6, |l: int| (HashFilter::Win12((l + 1) as u64), HashFilter::Target12((l + 1) as u64)))
    } else {
        seq![(HashFilter::All, HashFilter::All)]
    }
}

fn levels(count: usize, first: u64, n: usize) -> (r: Vec<(HashFilter, HashFilter)>)
    requires
        9 <= n <= 12,
        count == (if n == 9 {
            3usize
        } else if n == 12 {
            6
        } else {
            4
        }),
        first == (if n == 12 {
            1u64
        } else {
            0
        }),
    ensures
        r@ == spec_partitions(n as nat, true),
{
    let mut v: Vec<(HashFilter, HashFilter)> = Vec::new();
    let mut l: usize = 0;
    while l < count
        invariant
            l <= count,
            9 <= n <= 12,
            count == (if n == 9 {
                3usize
            } else if n == 12 {
                6
            } else {
                4
            }),
            first == (if n == 12 {
                1u64
            } else {
                0
            }),
            v@ == spec_partitions(n as nat, true).subrange(0, l as int),
        decreases count - l,
    {
        let pair = if n == 9 {
            (HashFilter::Win9(l as u32), HashFilter::Target9(l as u32))
        } else if n == 10 {
            (HashFilter::Win10(l as u32), HashFilter::Target10(l as u32))
        } else if n == 11 {
            (HashFilter::Win11(l as u64), HashFilter::Target11(l as u64))
        } else {
            (HashFilter::Win12(l as u64 + first), HashFilter::Target12(l as u64 + first))
        };
        v.push(pair);
        l = l + 1;
        assert(v@ =~= spec_partitions(n as nat, true).subrange(0, l as int));
    }
    assert(v@ =~= spec_partitions(n as nat, true));
    v
}

/// How the wins of `num_doves_win` doves are loaded: one pass over all of
/// them, or (where `split` asks for it and a partition exists) one pass
/// per partition.
pub fn partitions(num_doves_win: usize, split: bool) -> (r: Result<
    Vec<(HashFilter, HashFilter)>,
    ConfigError,
>)
    ensures
        !valid_num_doves(num_doves_win as nat) ==> r == Err::<Vec<(HashFilter, HashFilter)>, _>(
            ConfigError::InvalidNumDoves,
        ),
        valid_num_doves(num_doves_win as nat) ==> r.is_ok() && r.unwrap()@ == spec_partitions(
            num_doves_win as nat,
            split,
        ),
{
    if num_doves_win < 2 || num_doves_win > 12 {
        return Err(ConfigError::InvalidNumDoves);
    }
    if split && num_doves_win >= 9 {
        let count: usize = if num_doves_win == 9 {
            3
        } else if num_doves_win == 12 {
            6
        } else {
            4
        };
        let first: u64 = if num_doves_win == 12 {
            1
        } else {
            0
        };
        Ok(levels(count, first, num_doves_win))
    } else {
        let mut v: Vec<(HashFilter, HashFilter)> = Vec::new();
        v.push((HashFilter::All, HashFilter::All));
        assert(v@ =~= spec_partitions(num_doves_win as nat, split));
        Ok(v)
    }
}

/// The scratch directories of a win-to-lose step, in the order a
/// candidate passes through them.
#[derive(Debug, Clone, Copy, PartialEq, Eq, Hash, Structural)]
pub enum Stage {
    /// After the trim against known wins.
    Simply,
    /// After the trim on removes.
    Remove,
    /// After the trim on moves.
    Move,
    /// After the trim on puts: the result.
    Put,
}

/// One piece of work of a trim on action, on the shards of `num_doves`
/// doves.
#[derive(Debug, Clone, Copy, PartialEq, Eq, Hash, Structural)]
pub enum TrimTask {
    /// Copy the shards from `src` to `dst` unchanged.
    Copy { src: Stage, dst: Stage, num_doves: usize },
    /// Keep of the shards in `src` the candidates all of whose successors
    /// by the actions of `flags` are answered by the wins, into `dst`.
    Trim { src: Stage, dst: Stage, num_doves: usize, flags: ActionFlags },
}

pub open spec fn trim_between(src: Stage, dst: Stage, from: nat, to: nat) -> TrimTask {
    TrimTask::Trim {
        src,
        dst,
        num_doves: from as usize,
        flags: ActionFlags { put: from < to, mv: from == to, rm: from > to },
    }
}

/// The work done with the wins of `n` doves: moves of `n - 1` doves become
/// puts, removes of `n` become moves, trims of `n + 1` become removes. With
/// two doves there is nothing to put from, so the removes of two start as a
/// copy; with twelve there is nothing to remove into, and the puts of
/// twelve are a copy of its moves.
pub open spec fn spec_trim_plan(n: nat) -> Seq<TrimTask> {
    let first = if n == 2 {
        TrimTask::Copy { src: Stage::Simply, dst: Stage::Remove, num_doves: 2 }
    } else {
        trim_between(Stage::Move, Stage::Put, (n - 1) as nat, n)
    };
    let second = trim_between(Stage::Remove, Stage::Move, n, n);
    let third = if n == 12 {
        TrimTask::Copy { src: Stage::Move, dst: Stage::Put, num_doves: 12 }
    } else {
        trim_between(Stage::Simply, Stage::Remove, n + 1, n)
    };
    seq![first, second, third]
}

/// The work of a trim on action with the wins of `num_doves_win` doves, in
/// order. A copy first in the list runs before the trims; a copy last runs
/// after their results are written.
pub fn trim_plan(num_doves_win: usize) -> (r: Result<Vec<TrimTask>, ConfigError>)
    ensures
        !valid_num_doves(num_doves_win as nat) ==> r == Err::<Vec<TrimTask>, _>(
            ConfigError::InvalidNumDoves,
        ),
        valid_num_doves(num_doves_win as nat) ==> r.is_ok() && r.unwrap()@ == spec_trim_plan(
            num_doves_win as nat,
        ),
{
    if num_doves_win < 2 || num_doves_win > 12 {
        return Err(ConfigError::InvalidNumDoves);
    }
    let n = num_doves_win;
    let first = if n == 2 {
        TrimTask::Copy { src: Stage::Simply, dst: Stage::Remove, num_doves: 2 }
    } else {
        TrimTask::Trim {
            src: Stage::Move,
            dst: Stage::Put,
            num_doves: n - 1,
            flags: ActionFlags { put: true, mv: false, rm: false },
        }
    };
    let second = TrimTask::Trim {
        src: Stage::Remove,
        dst: Stage::Move,
        num_doves: n,
        flags: ActionFlags { put: false, mv: true, rm: false },
    };
    let third = if n == 12 {
        TrimTask::Copy { src: Stage::Move, dst: Stage::Put, num_doves: 12 }
    } else {
        TrimTask::Trim {
            src: Stage::Simply,
            dst: Stage::Remove,
            num_doves: n + 1,
            flags: ActionFlags { put: false, mv: false, rm: true },
        }
    };
    let mut v: Vec<TrimTask> = Vec::new();
    v.push(first);
    v.push(second);
    v.push(third);
    assert(v@ =~= spec_trim_plan(n as nat));
    Ok(v)
}

} // verus!
