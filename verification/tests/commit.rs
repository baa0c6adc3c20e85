use gametweaks::commit::{
    check_no_conflict, first_move, mod_commit_failed, mod_destination_step, next_move, removal_error, undo_moves,
    MoveEvent, MoveStep, RemovalProblem,
};

#[test]
fn moves_are_made_in_order_and_undone_last_first() {
    assert!(matches!(first_move(0), MoveStep::Done));
    assert!(matches!(first_move(3), MoveStep::Move(0)));
    assert!(matches!(next_move(3, 0, MoveEvent::Moved), MoveStep::Move(1)));
    assert!(matches!(next_move(3, 2, MoveEvent::Moved), MoveStep::Done));
    match next_move(3, 2, MoveEvent::Failed) {
        MoveStep::Undo(undo) => assert_eq!(undo, vec![1, 0]),
        _ => panic!("a failed move undoes the moves made"),
    }
    match next_move(3, 0, MoveEvent::Failed) {
        MoveStep::Undo(undo) => assert!(undo.is_empty()),
        _ => panic!("a failed first move undoes nothing"),
    }
    assert_eq!(undo_moves(4), vec![3, 2, 1, 0]);
}

#[test]
fn removal_and_commit_errors_carry_their_codes() {
    assert_eq!(removal_error("mod_uninstall_error", RemovalProblem::Missing).code, "mod_uninstall_error");
    assert_eq!(
        removal_error("mod_update_error", RemovalProblem::NotMoved).message,
        "game mod error: a managed file could not be staged for removal"
    );
    assert!(check_no_conflict(&vec![false, false]).is_ok());
    assert_eq!(check_no_conflict(&vec![false, true]).unwrap_err().code, "bepinex_blocked");
}

#[test]
fn an_existing_mod_directory_is_replaced_only_when_listed_and_managed() {
    assert_eq!(mod_destination_step(false, false, false, 2).unwrap(), false);
    assert_eq!(mod_destination_step(true, true, true, 2).unwrap(), true);
    let (undo, error) = mod_destination_step(true, false, true, 2).unwrap_err();
    assert_eq!(undo, vec![1, 0]);
    assert_eq!(error.code, "mod_collision");
    assert_eq!(mod_destination_step(true, true, false, 0).unwrap_err().1.code, "mod_collision");
    let (restore, undo, error) = mod_commit_failed(true, 3);
    assert!(restore);
    assert_eq!(undo, vec![2, 1, 0]);
    assert_eq!(error.code, "mod_install_error");
}

#[test]
fn undoing_the_moves_made_restores_the_directory() {
    let before: std::collections::BTreeSet<&str> = ["Game.exe", "Game_Data"].into_iter().collect();
    let targets = ["BepInEx", "doorstop_config.ini", "winhttp.dll"];
    let present: Vec<bool> = targets.iter().map(|t| before.contains(t)).collect();
    assert!(check_no_conflict(&present).is_ok());
    let mut directory = before.clone();
    for target in &targets[..2] {
        directory.insert(*target);
    }
    match next_move(targets.len(), 2, MoveEvent::Failed) {
        MoveStep::Undo(undo) => {
            for index in undo {
                directory.remove(targets[index]);
            }
        }
        _ => panic!("a failed move undoes the moves made"),
    }
    assert_eq!(directory, before);
}
