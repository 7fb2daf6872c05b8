use backward_analysis::board_set::{absorb_into, split};
use backward_analysis::phases::{gather, load_filter_batch, split_set_into, thin_out_set};
use backward_analysis::filter_maker::{make_win_filter_11, HashFilter};
use tokyodoves::collections::BoardSet;

fn set_of(hashes: &[u64]) -> BoardSet {
    let mut set = BoardSet::new();
    for h in hashes {
        set.raw_mut().insert(*h);
    }
    set
}

fn sorted(set: &BoardSet) -> Vec<u64> {
    let mut v: Vec<u64> = set.raw().iter().collect();
    v.sort();
    v
}

#[test]
fn board_set_split() {
    let all = [11u64, 22, 33, 44, 55];
    let (a, b) = split(set_of(&all), 2);
    assert_eq!(a.len(), 2);
    assert_eq!(b.len(), 3);
    let mut union = sorted(&a);
    union.extend(sorted(&b));
    union.sort();
    assert_eq!(union, all.to_vec());
}

#[test]
fn split_is_exact_across_shards() {
    // Hashes spread over several top halves, so the split cuts shards.
    let mut all = Vec::new();
    for top in 0..6u64 {
        for bottom in 0..7u64 {
            all.push((top << 32) | bottom);
        }
    }
    for k in [0usize, 1, 5, 7, 8, 20, 41, 42, 100] {
        let (a, b) = split(set_of(&all), k);
        assert_eq!(a.len(), k.min(all.len()));
        assert_eq!(a.len() + b.len(), all.len());
        for h in a.raw().iter() {
            assert!(!b.raw().contains(&h));
        }
    }
}

#[test]
fn split_of_empty_set() {
    let (a, b) = split(BoardSet::new(), 3);
    assert!(a.is_empty());
    assert!(b.is_empty());
}

#[test]
fn absorb_is_union() {
    let mut a = set_of(&[1, 2, 3]);
    absorb_into(&mut a, set_of(&[3, 4]));
    assert_eq!(sorted(&a), vec![1, 2, 3, 4]);
    let mut b = set_of(&[3, 4]);
    absorb_into(&mut b, set_of(&[1, 2, 3]));
    assert_eq!(sorted(&b), sorted(&a));
    let mut c = set_of(&[7]);
    absorb_into(&mut c, BoardSet::new());
    assert_eq!(sorted(&c), vec![7]);
}

#[test]
fn trim_simply_removes_wins() {
    let mut target = set_of(&[0x1, 0x2, 0x3]);
    thin_out_set(&mut target, &vec![0x2, 0x9]);
    assert_eq!(sorted(&target), vec![0x1, 0x3]);
}

#[test]
fn trim_simply_over_several_batches() {
    let mut target = set_of(&[1, 2, 3, 4, 5]);
    thin_out_set(&mut target, &vec![5]);
    thin_out_set(&mut target, &vec![]);
    thin_out_set(&mut target, &vec![1, 1, 6]);
    assert_eq!(sorted(&target), vec![2, 3, 4]);
}

#[test]
fn split_set_into_even_shares() {
    let all: Vec<u64> = (1..=10).collect();
    let parts = split_set_into(set_of(&all), 3);
    let lens: Vec<usize> = parts.iter().map(|p| p.len()).collect();
    assert_eq!(lens, vec![4, 4, 2]);
    let mut union: Vec<u64> = parts.iter().flat_map(sorted).collect();
    union.sort();
    assert_eq!(union, all);
}

#[test]
fn split_set_into_more_parts_than_items() {
    let parts = split_set_into(set_of(&[5, 6]), 4);
    let lens: Vec<usize> = parts.iter().map(|p| p.len()).collect();
    assert_eq!(lens, vec![1, 1, 0, 0]);
}

#[test]
fn gather_unites_files() {
    let out = gather(vec![set_of(&[1, 2]), BoardSet::new(), set_of(&[2, 3])]);
    assert_eq!(sorted(&out), vec![1, 2, 3]);
}

#[test]
fn load_filter_keeps_accepted() {
    // Red boss at 0 and aniki at 5: distance 2; aniki at 1: distance 1.
    let d2 = (1u64 << 59) | (1u64 << 57) | (5u64 << 36);
    let d1 = (1u64 << 59) | (1u64 << 57) | (1u64 << 36);
    let mut set = BoardSet::new();
    load_filter_batch(&mut set, &vec![d2, d1, d2], &make_win_filter_11(2));
    assert_eq!(sorted(&set), vec![d2]);
    load_filter_batch(&mut set, &vec![d1], &HashFilter::All);
    assert_eq!(set.len(), 2);
}
