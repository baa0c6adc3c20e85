//! Moving staged files into place one after another, and undoing the moves
//! already made, last first, when one of them fails: the decisions of that
//! walk, from the state it has reached and what the last move did to what
//! comes next.
use vstd::prelude::*;

use crate::error::{bepinex_error, mod_error, ErrorResponse};

verus! {

/// How the last move went.
#[derive(Clone, Copy, Debug, PartialEq, Eq, Structural)]
pub enum MoveEvent {
    Moved,
    Failed,
}

/// What to do next.
#[derive(Debug)]
pub enum MoveStep {
    /// Make the move with this index.
    Move(usize),
    /// Undo the moves with these indices, in this order, and fail.
    Undo(Vec<usize>),
    /// Every move was made.
    Done,
}

/// The moves made so far, `made` of them, last first.
pub open spec fn undo_order(made: nat) -> Seq<usize> {
    Seq::new(made, |i: int| (made - 1 - i) as usize)
}

/// The moves `0..made` in the order they are undone: the last one made
/// first.
pub fn undo_moves(made: usize) -> (undo: Vec<usize>)
    ensures
        undo@ == undo_order(made as nat),
{
    let mut undo: Vec<usize> = Vec::new();
    let mut left = made;
    while left > 0
        invariant
            left <= made,
            undo@ == undo_order(made as nat).subrange(0, (made - left) as int),
        decreases left,
    {
        left = left - 1;
        undo.push(left);
        proof {
            assert(undo@ =~= undo_order(made as nat).subrange(0, (made - left) as int));
        }
    }
    proof {
        assert(undo_order(made as nat).subrange(0, made as int) =~= undo_order(made as nat));
    }
    undo
}

/// Where a walk over `total` moves begins.
pub fn first_move(total: usize) -> (step: MoveStep)
    ensures
        total == 0 ==> step is Done,
        total > 0 ==> step == MoveStep::Move(0),
{
    if total == 0 {
        MoveStep::Done
    } else {
        MoveStep::Move(0)
    }
}

/// What follows move `made` of `total`: the next move, the end, or, where
/// it failed, undoing the moves made before it, last first.
pub fn next_move(total: usize, made: usize, event: MoveEvent) -> (step: MoveStep)
    requires
        made < total,
    ensures
        event == MoveEvent::Moved && made + 1 == total ==> step is Done,
        event == MoveEvent::Moved && made + 1 < total ==> step == MoveStep::Move((made + 1) as usize),
        event == MoveEvent::Failed ==> (step matches MoveStep::Undo(undo) && undo@ == undo_order(made as nat)),
{
    match event {
        MoveEvent::Moved => if made + 1 == total {
            MoveStep::Done
        } else {
            MoveStep::Move(made + 1)
        },
        MoveEvent::Failed => MoveStep::Undo(undo_moves(made)),
    }
}

/// Undoing follows the moves back: every move made is undone once, and a
/// move made later is undone earlier.
pub proof fn moves_are_undone_last_first(made: usize)
    ensures
        undo_order(made as nat).len() == made,
        forall|m: int| 0 <= m < made ==> #[trigger] undo_order(made as nat)[made - 1 - m] == m,
        forall|i: int, j: int|
            0 <= i < j < made ==> #[trigger] undo_order(made as nat)[i] > #[trigger] undo_order(made as nat)[j],
{
}

/// Why a managed file could not be staged for removal.
#[derive(Clone, Copy, Debug, PartialEq, Eq, Structural)]
pub enum RemovalProblem {
    Missing,
    NotRegular,
    NoStagingDirectory,
    NotMoved,
}

/// The error a removal fails with, under the caller's code, for why a file
/// could not be staged.
pub fn removal_error(code: &'static str, problem: RemovalProblem) -> (error: ErrorResponse)
    ensures
        error.code@ == code@,
{
    match problem {
        RemovalProblem::Missing => mod_error(code, "a managed file disappeared before it could be removed"),
        RemovalProblem::NotRegular => mod_error(code, "a managed file was no longer a regular file"),
        RemovalProblem::NoStagingDirectory => mod_error(code, "an uninstall staging directory could not be created"),
        RemovalProblem::NotMoved => mod_error(code, "a managed file could not be staged for removal"),
    }
}

/// BepInEx is moved into the game directory only where none of its
/// top-level entries is there already (`bepinex_blocked` otherwise);
/// `present` tells, for each, whether the game directory has it.
pub fn check_no_conflict(present: &Vec<bool>) -> (checked: Result<(), ErrorResponse>)
    ensures
        checked is Ok <==> forall|i: int| 0 <= i < present@.len() ==> !#[trigger] present@[i],
        checked matches Err(e) ==> e.code@ == "bepinex_blocked"@,
{
    let mut i: usize = 0;
    while i < present.len()
        invariant
            i <= present@.len(),
            forall|j: int| 0 <= j < i ==> !#[trigger] present@[j],
        decreases present@.len() - i,
    {
        if present[i] {
            return Err(bepinex_error("bepinex_blocked", "an existing game file conflicts with the BepInEx package"));
        }
        i = i + 1;
    }
    Ok(())
}

/// What committing the next mod of an installation does, where
/// `committed` mods were committed before it: with nothing at its
/// destination it is moved in (`Ok(false)`); where its destination holds a
/// directory that the installation may replace and that holds a valid
/// marker, the old version is moved aside first (`Ok(true)`); any other
/// directory there is a collision: the mods committed are undone, last
/// first, and the installation fails with `mod_collision`.
pub fn mod_destination_step(had_old: bool, replace_listed: bool, managed: bool, committed: usize) -> (step: Result<
    bool,
    (Vec<usize>, ErrorResponse),
>)
    ensures
        !had_old ==> step == Ok::<bool, (Vec<usize>, ErrorResponse)>(false),
        had_old && replace_listed && managed ==> step == Ok::<bool, (Vec<usize>, ErrorResponse)>(true),
        had_old && !(replace_listed && managed) ==> (step matches Err((undo, e)) && undo@ == undo_order(
            committed as nat,
        ) && e.code@ == "mod_collision"@),
{
    if !had_old {
        return Ok(false);
    }
    if !replace_listed || !managed {
        return Err((undo_moves(committed), mod_error("mod_collision", "an existing mod directory is not managed by GameTweaks")));
    }
    Ok(true)
}

/// A mod that could not be moved into place, after `committed` mods were:
/// its old version, where one was moved aside, goes back (the first
/// part), the mods committed are undone, last first, and the installation
/// fails with `mod_install_error`.
pub fn mod_commit_failed(had_old: bool, committed: usize) -> (failure: (bool, Vec<usize>, ErrorResponse))
    ensures
        failure.0 == had_old,
        failure.1@ == undo_order(committed as nat),
        failure.2.code@ == "mod_install_error"@,
{
    (had_old, undo_moves(committed), mod_error("mod_install_error", "a mod could not be committed"))
}

/// The names a directory holds after the first `made` of the moves into
/// it, to the names `targets`, were made.
pub open spec fn moved_in(present: Set<Seq<char>>, targets: Seq<Seq<char>>, made: int) -> Set<Seq<char>>
    decreases made,
{
    if made <= 0 || made > targets.len() {
        present
    } else {
        moved_in(present, targets, made - 1).insert(targets[made - 1])
    }
}

/// The names a directory holds after the moves in `undo` were taken back,
/// in that order.
pub open spec fn taken_back(held: Set<Seq<char>>, targets: Seq<Seq<char>>, undo: Seq<usize>) -> Set<Seq<char>>
    decreases undo.len(),
{
    if undo.len() == 0 {
        held
    } else {
        taken_back(held.remove(targets[undo[0] as int]), targets, undo.drop_first())
    }
}

/// Undoing a failed commit leaves the directory as it was: where none of
/// the names moved in was there before (as `check_no_conflict` checks) and
/// no name is moved in twice, taking back the moves made, last first,
/// leaves exactly the names the directory held before.
pub proof fn undoing_moves_restores_the_directory(present: Set<Seq<char>>, targets: Seq<Seq<char>>, made: usize)
    requires
        made <= targets.len(),
        forall|i: int| 0 <= i < targets.len() ==> !present.contains(#[trigger] targets[i]),
        forall|i: int, j: int| 0 <= i < j < targets.len() ==> #[trigger] targets[i] != #[trigger] targets[j],
    ensures
        taken_back(moved_in(present, targets, made as int), targets, undo_order(made as nat)) == present,
    decreases made,
{
    if made > 0 {
        let m = (made - 1) as usize;
        undoing_moves_restores_the_directory(present, targets, m);
        let last = targets[m as int];
        lemma_moved_in_holds(present, targets, m as int);
        assert(!moved_in(present, targets, m as int).contains(last));
        assert(moved_in(present, targets, made as int).remove(last) =~= moved_in(present, targets, m as int));
        assert(undo_order(made as nat)[0] == m);
        assert(undo_order(made as nat).drop_first() =~= undo_order(m as nat));
    }
}

proof fn lemma_moved_in_holds(present: Set<Seq<char>>, targets: Seq<Seq<char>>, made: int)
    requires
        0 <= made < targets.len(),
        forall|i: int| 0 <= i < targets.len() ==> !present.contains(#[trigger] targets[i]),
        forall|i: int, j: int| 0 <= i < j < targets.len() ==> #[trigger] targets[i] != #[trigger] targets[j],
    ensures
        !moved_in(present, targets, made).contains(targets[made]),
    decreases made,
{
    assert(!present.contains(targets[made]));
    if made > 0 {
        assert(targets[made - 1] != targets[made]);
        lemma_moved_in_holds_below(present, targets, made - 1, made);
    }
}

proof fn lemma_moved_in_holds_below(present: Set<Seq<char>>, targets: Seq<Seq<char>>, made: int, k: int)
    requires
        0 <= made < k < targets.len(),
        forall|i: int| 0 <= i < targets.len() ==> !present.contains(#[trigger] targets[i]),
        forall|i: int, j: int| 0 <= i < j < targets.len() ==> #[trigger] targets[i] != #[trigger] targets[j],
    ensures
        !moved_in(present, targets, made + 1).contains(targets[k]),
    decreases made,
{
    assert(targets[made] != targets[k]);
    assert(!present.contains(targets[k]));
    if made > 0 {
        lemma_moved_in_holds_below(present, targets, made - 1, k);
    } else {
        assert(moved_in(present, targets, 0) == present);
    }
}

} // verus!
