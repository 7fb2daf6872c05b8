//! The rules of Tokyo Doves, as far as the analysis needs them.
//!
//! A board is handled by its 64-bit encoding (the layout described in
//! `hashutil`). The rules themselves (legal actions, performing an action,
//! surrounding, canonical hashing) are tokyodoves'; each call is a wrapper
//! whose result is named below. Whether a position is already decided is
//! this library's own rule, `is_win1_or_finished`.

use vstd::prelude::*;
use crate::hashutil::{mask_has, presence_mask, Color, Dove, OnOff};

verus! {

#[verifier::external_type_specification]
#[verifier::external_body]
pub struct ExAction(tokyodoves::Action);

/// Which bosses are surrounded.
#[derive(Debug, Clone, Copy, PartialEq, Eq, Hash, Structural)]
pub enum Surrounded {
    Neither,
    OneSide(Color),
    Both,
}

/// The legal actions of `player` on `board` (puts, moves, removes as
/// selected), in tokyodoves' order.
pub uninterp spec fn forward_actions(
    board: u64,
    player: Color,
    put: bool,
    mv: bool,
    rm: bool,
) -> Seq<tokyodoves::Action>;

/// The actions that lead from `board` back to a position from which
/// `player` could have reached it.
pub uninterp spec fn backward_actions(
    board: u64,
    player: Color,
    put: bool,
    mv: bool,
    rm: bool,
) -> Seq<tokyodoves::Action>;

/// The encoding of `board` after `action`.
pub uninterp spec fn performed(board: u64, action: tokyodoves::Action) -> u64;

/// The surround state of `board`.
pub uninterp spec fn surrounded_of(board: u64) -> Surrounded;

/// The number of doves on the field of `board`.
pub uninterp spec fn doves_on_field(board: u64) -> nat;

/// The hash of `board` that is the same for all boards equal up to
/// rotation, reflection and shifting on the field, with `player` to move taken as Red.
pub uninterp spec fn invariant_hash(board: u64, player: Color) -> u64;

/// Both bosses are on the field: what tokyodoves needs of a board before it
/// examines it.
pub open spec fn bosses_on_field(board: u64) -> bool {
    mask_has(presence_mask(board), Color::Red, Dove::B) && mask_has(
        presence_mask(board),
        Color::Green,
        Dove::B,
    )
}

/// `action` is one of those listed for `board`, forward or backward.
pub open spec fn listed_for(board: u64, action: tokyodoves::Action) -> bool {
    exists|p: Color, put: bool, mv: bool, rm: bool|
        #![trigger forward_actions(board, p, put, mv, rm)]
        #![trigger backward_actions(board, p, put, mv, rm)]
        forward_actions(board, p, put, mv, rm).contains(action) || backward_actions(
            board,
            p,
            put,
            mv,
            rm,
        ).contains(action)
}

/// Relies on `Board::legal_actions` (on the board that
/// `BoardBuilder::from_u64` decodes).
#[verifier::external_body]
pub(crate) fn legal_actions(board: u64, player: Color, put: bool, mv: bool, rm: bool) -> (r: Vec<
    tokyodoves::Action,
>)
    requires
        bosses_on_field(board),
    ensures
        r@ == forward_actions(board, player, put, mv, rm),
{
    let p = match player {
        Color::Red => tokyodoves::Color::Red,
        Color::Green => tokyodoves::Color::Green,
    };
    let b = tokyodoves::BoardBuilder::from_u64(board).build_unchecked();
    b.legal_actions(p, put, mv, rm).into_iter().collect()
}

/// Relies on `Board::legal_actions_bwd` (on the board that
/// `BoardBuilder::from_u64` decodes).
#[verifier::external_body]
pub(crate) fn legal_actions_bwd(board: u64, player: Color, put: bool, mv: bool, rm: bool) -> (r: Vec<
    tokyodoves::Action,
>)
    requires
        bosses_on_field(board),
    ensures
        r@ == backward_actions(board, player, put, mv, rm),
{
    let p = match player {
        Color::Red => tokyodoves::Color::Red,
        Color::Green => tokyodoves::Color::Green,
    };
    let b = tokyodoves::BoardBuilder::from_u64(board).build_unchecked();
    b.legal_actions_bwd(p, put, mv, rm).into_iter().collect()
}

/// Relies on `Board::perform_unchecked_copied`, which panics only on an
/// action that is far off the field; listed actions are not.
#[verifier::external_body]
pub(crate) fn perform(board: u64, action: tokyodoves::Action) -> (r: u64)
    requires
        bosses_on_field(board),
        listed_for(board, action),
    ensures
        r == performed(board, action),
{
    let b = tokyodoves::BoardBuilder::from_u64(board).build_unchecked();
    b.perform_unchecked_copied(action).to_u64()
}

/// Relies on `Board::surrounded_status`.
#[verifier::external_body]
pub(crate) fn surrounded_status(board: u64) -> (r: Surrounded)
    requires
        bosses_on_field(board),
    ensures
        r == surrounded_of(board),
{
    let b = tokyodoves::BoardBuilder::from_u64(board).build_unchecked();
    match b.surrounded_status() {
        tokyodoves::SurroundedStatus::None => Surrounded::Neither,
        tokyodoves::SurroundedStatus::OneSide(tokyodoves::Color::Red) => Surrounded::OneSide(
            Color::Red,
        ),
        tokyodoves::SurroundedStatus::OneSide(tokyodoves::Color::Green) => Surrounded::OneSide(
            Color::Green,
        ),
        tokyodoves::SurroundedStatus::Both => Surrounded::Both,
    }
}

/// Relies on `Board::count_doves_on_field`.
#[verifier::external_body]
pub(crate) fn count_doves_on_field(board: u64) -> (r: usize)
    requires
        bosses_on_field(board),
    ensures
        r == doves_on_field(board),
{
    tokyodoves::BoardBuilder::from_u64(board).build_unchecked().count_doves_on_field()
}

/// Relies on `Board::to_invariant_u64`.
#[verifier::external_body]
pub(crate) fn to_invariant_u64(board: u64, player: Color) -> (r: u64)
    requires
        bosses_on_field(board),
    ensures
        r == invariant_hash(board, player),
{
    let p = match player {
        Color::Red => tokyodoves::Color::Red,
        Color::Green => tokyodoves::Color::Green,
    };
    tokyodoves::BoardBuilder::from_u64(board).build_unchecked().to_invariant_u64(p)
}

/// `action` of `player` on `board` surrounds the other player's boss alone.
pub open spec fn wins_by(board: u64, player: Color, action: tokyodoves::Action) -> bool {
    let next = performed(board, action);
    bosses_on_field(next) && match surrounded_of(next) {
        Surrounded::OneSide(p) => p != player,
        _ => false,
    }
}

/// The value of `board` for `player` to move is already known: a boss is
/// surrounded (or missing), or `player` wins with one action.
pub open spec fn spec_is_win1_or_finished(board: u64, player: Color) -> bool {
    !bosses_on_field(board) || surrounded_of(board) != Surrounded::Neither || exists|i: int|
        0 <= i < forward_actions(board, player, true, true, true).len() && #[trigger] wins_by(
            board,
            player,
            forward_actions(board, player, true, true, true)[i],
        )
}

/// Both bosses are on the field of `board`.
pub fn has_both_bosses(board: u64) -> (r: bool)
    ensures
        r == bosses_on_field(board),
{
    let onoff = OnOff::new(board);
    onoff.contains(Color::Red, Dove::B) && onoff.contains(Color::Green, Dove::B)
}

/// Whether the value of `board` for `player` to move is already known.
pub fn is_win1_or_finished(board: u64, player: Color) -> (r: bool)
    ensures
        r == spec_is_win1_or_finished(board, player),
{
    if !has_both_bosses(board) {
        return true;
    }
    match surrounded_status(board) {
        Surrounded::Neither => {},
        _ => {
            return true;
        },
    }
    let actions = legal_actions(board, player, true, true, true);
    let mut i: usize = 0;
    while i < actions.len()
        invariant
            bosses_on_field(board),
            actions@ == forward_actions(board, player, true, true, true),
            i <= actions@.len(),
            forall|j: int| 0 <= j < i ==> !#[trigger] wins_by(board, player, actions@[j]),
        decreases actions@.len() - i,
    {
        let action = actions[i];
        assert(forward_actions(board, player, true, true, true).contains(action));
        let next = perform(board, action);
        if has_both_bosses(next) {
            match surrounded_status(next) {
                Surrounded::OneSide(p) => {
                    if p != player {
                        assert(wins_by(board, player, actions@[i as int]));
                        return true;
                    }
                },
                _ => {},
            }
        }
        i = i + 1;
    }
    false
}

} // verus!
