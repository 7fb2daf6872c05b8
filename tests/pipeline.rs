use backward_analysis::config::{
    action_flags, backstep_bucket_range, partitions, step_kind, trim_plan, ActionFlags,
    ConfigError, Stage, StepKind, TrimTask,
};
use backward_analysis::filter_maker::HashFilter;
use backward_analysis::game::{has_both_bosses, is_win1_or_finished};
use backward_analysis::hashutil::Color;
use backward_analysis::phases::{
    backstep_core, chunk_size, create_thinned_set_core, keeps_candidate, merge_buckets,
    Redistributor, NUM_BUCKETS,
};
use tokyodoves::collections::BoardSet;
use tokyodoves::{Board, BoardBuilder, SurroundedStatus};

/// Red boss at square 0, Green boss at square 5: diagonally adjacent.
fn two_bosses() -> u64 {
    (1u64 << 59) | (1u64 << 58) | (5u64 << 40)
}

fn set_of(hashes: &[u64]) -> BoardSet {
    let mut set = BoardSet::new();
    for h in hashes {
        set.raw_mut().insert(*h);
    }
    set
}

fn board(h: u64) -> Board {
    BoardBuilder::from_u64(h).build_unchecked()
}

fn decided(b: Board, player: tokyodoves::Color) -> bool {
    if !matches!(b.surrounded_status(), SurroundedStatus::None) {
        return true;
    }
    b.legal_actions(player, true, true, true).into_iter().any(|a| {
        matches!(b.perform_unchecked_copied(a).surrounded_status(),
            SurroundedStatus::OneSide(p) if p != player)
    })
}

#[test]
fn backstep_smallest_case() {
    let h0 = two_bosses();
    let buckets = backstep_core(&set_of(&[h0]));
    assert_eq!(buckets.len(), NUM_BUCKETS);
    assert!(!buckets[2].is_empty());
    for (n, bucket) in buckets.iter().enumerate() {
        if n != 2 && n != 3 {
            assert!(bucket.is_empty(), "bucket {n} should be empty");
        }
    }
    let b0 = board(h0);
    let mut expected = BoardSet::new();
    for a in b0.legal_actions_bwd(tokyodoves::Color::Green, true, true, true) {
        let b1 = b0.perform_unchecked_copied(a);
        if b1.count_doves_on_field() == 3 && !decided(b1, tokyodoves::Color::Green) {
            expected.raw_mut().insert(b1.to_invariant_u64(tokyodoves::Color::Green));
        }
    }
    assert_eq!(buckets[3].len(), expected.len());
    for h in expected.raw().iter() {
        assert!(buckets[3].raw().contains(&h));
    }
    for h in buckets[2].raw().iter() {
        assert_ne!(h, 0);
        assert_eq!((h >> 48).count_ones(), 2);
    }
}

#[test]
fn backstep_skips_positions_without_bosses() {
    let buckets = backstep_core(&set_of(&[0x1]));
    assert!(buckets.iter().all(|b| b.is_empty()));
}

#[test]
fn merge_buckets_unites_workers() {
    let mut w0: Vec<BoardSet> = (0..NUM_BUCKETS).map(|_| BoardSet::new()).collect();
    let mut w1: Vec<BoardSet> = (0..NUM_BUCKETS).map(|_| BoardSet::new()).collect();
    w0[3] = set_of(&[1, 2]);
    w1[3] = set_of(&[2, 3]);
    w1[4] = set_of(&[9]);
    let merged = merge_buckets(vec![w0, w1]);
    assert_eq!(merged.len(), NUM_BUCKETS);
    assert_eq!(merged[3].len(), 3);
    assert_eq!(merged[4].len(), 1);
    assert!(merged[0].is_empty());
}

#[test]
fn decided_positions() {
    assert!(is_win1_or_finished(0x1, Color::Red));
    assert!(!has_both_bosses(0x1));
    assert!(has_both_bosses(two_bosses()));
    let b = board(two_bosses());
    assert_eq!(
        is_win1_or_finished(two_bosses(), Color::Green),
        decided(b, tokyodoves::Color::Green)
    );
}

#[test]
fn trim_on_action_keeps_answered_candidates() {
    let h0 = two_bosses();
    let b0 = board(h0);
    let mut answers = Vec::new();
    for a in b0.legal_actions(tokyodoves::Color::Red, false, true, false) {
        let b1 = b0.perform_unchecked_copied(a);
        if !decided(b1, tokyodoves::Color::Green) {
            answers.push(b1.to_invariant_u64(tokyodoves::Color::Green));
        }
    }
    assert!(!answers.is_empty());
    let wins = set_of(&answers);
    assert!(keeps_candidate(h0, &HashFilter::All, &wins, false, true, false));
    let kept = create_thinned_set_core(&vec![h0, 0x1], &HashFilter::All, &wins, false, true, false);
    assert_eq!(kept.len(), 1);
    assert!(kept.raw().contains(&h0));
    let mut partial = set_of(&answers);
    partial.raw_mut().remove(&answers[0]);
    assert!(!keeps_candidate(h0, &HashFilter::All, &partial, false, true, false));
    assert!(!keeps_candidate(h0, &HashFilter::Win12(5), &wins, false, true, false));
}

#[test]
fn redistribute_conservation() {
    let sizes = [100u64, 200, 150, 50, 500];
    let total: u64 = sizes.iter().sum();
    let mut r = Redistributor::new(total as usize, 4);
    assert_eq!(r.chunk(), 250);
    let mut outputs: Vec<BoardSet> = Vec::new();
    let mut next = 0u64;
    for size in sizes {
        let mut input = BoardSet::new();
        for _ in 0..size {
            input.raw_mut().insert(next);
            next += 1;
        }
        outputs.extend(r.push(input));
    }
    outputs.extend(r.finish());
    assert_eq!(outputs.len(), 4);
    let lens: Vec<usize> = outputs.iter().map(|s| s.len()).collect();
    assert_eq!(lens, vec![250, 250, 250, 250]);
    let mut seen = BoardSet::new();
    for s in outputs {
        seen.absorb(s);
    }
    assert_eq!(seen.len(), 1000);
}

#[test]
fn redistribute_pads_with_empty_files() {
    let mut r = Redistributor::new(5, 3);
    assert_eq!(r.chunk(), 2);
    let mut outputs = r.push(set_of(&[1, 2, 3]));
    assert_eq!(r.remaining(), 2);
    outputs.extend(r.finish());
    let lens: Vec<usize> = outputs.iter().map(|s| s.len()).collect();
    assert_eq!(lens, vec![2, 1, 0]);
}

#[test]
fn redistribute_of_nothing() {
    let r = Redistributor::new(0, 2);
    assert_eq!(r.chunk(), 0);
    let outputs = r.finish();
    assert_eq!(outputs.len(), 2);
    assert!(outputs.iter().all(|s| s.is_empty()));
}

#[test]
fn chunk_is_ceiling() {
    assert_eq!(chunk_size(1000, 4), 250);
    assert_eq!(chunk_size(1001, 4), 251);
    assert_eq!(chunk_size(0, 4), 0);
    assert_eq!(chunk_size(usize::MAX, 2), usize::MAX / 2 + 1);
}

#[test]
fn step_kinds() {
    assert_eq!(step_kind(0), Err(ConfigError::InvalidNumFrom));
    assert_eq!(step_kind(1), Err(ConfigError::InvalidNumFrom));
    assert_eq!(step_kind(2), Ok(StepKind::LoseToWin));
    assert_eq!(step_kind(3), Ok(StepKind::WinToLose));
}

#[test]
fn flags_by_transition() {
    assert_eq!(action_flags(5, 6), Ok(ActionFlags { put: true, mv: false, rm: false }));
    assert_eq!(action_flags(6, 6), Ok(ActionFlags { put: false, mv: true, rm: false }));
    assert_eq!(action_flags(7, 6), Ok(ActionFlags { put: false, mv: false, rm: true }));
    assert_eq!(action_flags(4, 6), Err(ConfigError::InvalidTransition));
    assert_eq!(action_flags(1, 2), Err(ConfigError::InvalidTransition));
    assert_eq!(action_flags(12, 13), Err(ConfigError::InvalidTransition));
}

#[test]
fn bucket_ranges() {
    assert_eq!(backstep_bucket_range(2), (2, 3));
    assert_eq!(backstep_bucket_range(7), (6, 8));
    assert_eq!(backstep_bucket_range(12), (11, 12));
}

#[test]
fn oracle_partitions() {
    assert_eq!(partitions(1, true), Err(ConfigError::InvalidNumDoves));
    assert_eq!(partitions(13, false), Err(ConfigError::InvalidNumDoves));
    assert_eq!(partitions(10, false), Ok(vec![(HashFilter::All, HashFilter::All)]));
    assert_eq!(partitions(8, true), Ok(vec![(HashFilter::All, HashFilter::All)]));
    let nine = partitions(9, true).unwrap();
    assert_eq!(nine.len(), 3);
    assert_eq!(nine[2], (HashFilter::Win9(2), HashFilter::Target9(2)));
    assert_eq!(partitions(10, true).unwrap().len(), 4);
    assert_eq!(partitions(11, true).unwrap()[3], (HashFilter::Win11(3), HashFilter::Target11(3)));
    let twelve = partitions(12, true).unwrap();
    assert_eq!(twelve.len(), 6);
    assert_eq!(twelve[0], (HashFilter::Win12(1), HashFilter::Target12(1)));
    assert_eq!(twelve[5], (HashFilter::Win12(6), HashFilter::Target12(6)));
}

#[test]
fn trim_plans_at_the_boundaries() {
    let put = ActionFlags { put: true, mv: false, rm: false };
    let mv = ActionFlags { put: false, mv: true, rm: false };
    let rm = ActionFlags { put: false, mv: false, rm: true };
    assert_eq!(
        trim_plan(2),
        Ok(vec![
            TrimTask::Copy { src: Stage::Simply, dst: Stage::Remove, num_doves: 2 },
            TrimTask::Trim { src: Stage::Remove, dst: Stage::Move, num_doves: 2, flags: mv },
            TrimTask::Trim { src: Stage::Simply, dst: Stage::Remove, num_doves: 3, flags: rm },
        ])
    );
    assert_eq!(
        trim_plan(12),
        Ok(vec![
            TrimTask::Trim { src: Stage::Move, dst: Stage::Put, num_doves: 11, flags: put },
            TrimTask::Trim { src: Stage::Remove, dst: Stage::Move, num_doves: 12, flags: mv },
            TrimTask::Copy { src: Stage::Move, dst: Stage::Put, num_doves: 12 },
        ])
    );
    assert_eq!(trim_plan(13), Err(ConfigError::InvalidNumDoves));
}
