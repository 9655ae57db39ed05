use dr::dispatch::{
    list_lines, parse, plan_drop, recover_action, Command, DropPlan, ParseError, RecoverAction,
};
use dr::engine::{purge_action, start, step, FsAction, FsEvent, PurgeAction, RelocateState};
use dr::resolve::{canonical_or_resolved, join_under, parent_dir, path_is_absolute, resolve};

fn args(raw: &[&[u8]]) -> Vec<Vec<u8>> {
    raw.iter().map(|a| a.to_vec()).collect()
}

#[test]
fn parse_list_flags() {
    for flag in [&b"--list"[..], &b"-l"[..]] {
        let cli = parse(&args(&[flag])).unwrap();
        assert_eq!(cli.command, Command::List);
        assert!(cli.filepaths.is_empty());
    }
}

#[test]
fn parse_recover_flags() {
    let cli = parse(&args(&[b"--recover", b"foo.txt", b"bar"])).unwrap();
    assert_eq!(cli.command, Command::Recover);
    assert_eq!(cli.filepaths, args(&[b"foo.txt", b"bar"]));
    let cli = parse(&args(&[b"-r", b"foo.txt"])).unwrap();
    assert_eq!(cli.command, Command::Recover);
    assert_eq!(cli.filepaths, args(&[b"foo.txt"]));
}

#[test]
fn parse_delete_flags() {
    let cli = parse(&args(&[b"--delete", b"foo.txt"])).unwrap();
    assert_eq!(cli.command, Command::Delete);
    assert_eq!(cli.filepaths, args(&[b"foo.txt"]));
    let cli = parse(&args(&[b"-d", b"foo.txt"])).unwrap();
    assert_eq!(cli.command, Command::Delete);
}

#[test]
fn parse_help_flags() {
    for flag in [&b"--help"[..], &b"-h"[..]] {
        let cli = parse(&args(&[flag])).unwrap();
        assert_eq!(cli.command, Command::Help);
        assert!(cli.filepaths.is_empty());
    }
}

#[test]
fn parse_default_drop_takes_every_argument() {
    let cli = parse(&args(&[b"foo.txt", b"bar.txt"])).unwrap();
    assert_eq!(cli.command, Command::Drop);
    assert_eq!(cli.filepaths, args(&[b"foo.txt", b"bar.txt"]));
}

#[test]
fn parse_rejects_missing_filepaths() {
    assert_eq!(parse(&args(&[])), Err(ParseError::MissingFilepaths));
    assert_eq!(
        parse(&args(&[b"--recover"])),
        Err(ParseError::MissingFilepaths)
    );
    assert_eq!(parse(&args(&[b"-d"])), Err(ParseError::MissingFilepaths));
}

#[test]
fn drop_then_list_shows_path_exactly_once() {
    let store: Vec<Vec<u8>> = Vec::new();
    match plan_drop(1000, true, b"/a/b/foo.txt".to_vec(), None, &store) {
        DropPlan::Store(stored) => {
            let after = vec![stored];
            let lines = list_lines(&after);
            assert_eq!(lines, vec![b"/a/b/foo.txt".to_vec()]);
        }
        DropPlan::NotFound => unreachable!(),
    }
}

#[test]
fn list_shows_unparseable_names_verbatim() {
    let store = args(&[b"no-separator", b"1000_/a/b/foo.txt", b"xyz_odd"]);
    let lines = list_lines(&store);
    assert_eq!(
        lines,
        args(&[b"no-separator", b"/a/b/foo.txt", b"xyz_odd"])
    );
}

#[test]
fn list_of_empty_store_is_empty() {
    let lines = list_lines(&Vec::new());
    assert!(lines.is_empty());
}

#[test]
fn recover_refuses_existing_target() {
    assert_eq!(recover_action(true), RecoverAction::RefuseExisting);
    assert_eq!(recover_action(false), RecoverAction::Restore);
}

#[test]
fn plan_drop_rejects_missing_target() {
    let store: Vec<Vec<u8>> = Vec::new();
    let plan = plan_drop(1000, false, b"/gone".to_vec(), None, &store);
    assert_eq!(plan, DropPlan::NotFound);
}

#[test]
fn plan_drop_prefers_canonical_path() {
    let store: Vec<Vec<u8>> = Vec::new();
    let plan = plan_drop(
        7,
        true,
        b"/tmp/link".to_vec(),
        Some(b"/real/file".to_vec()),
        &store,
    );
    assert_eq!(plan, DropPlan::Store(b"7_/real/file".to_vec()));
}

#[test]
fn plan_drop_avoids_colliding_stored_name() {
    let store = args(&[b"7_/real/file"]);
    let plan = plan_drop(7, true, b"/real/file".to_vec(), None, &store);
    assert_eq!(plan, DropPlan::Store(b"7.1_/real/file".to_vec()));
}

#[test]
fn resolve_keeps_absolute_paths() {
    assert!(path_is_absolute(b"/a/b"));
    assert!(!path_is_absolute(b"a/b"));
    assert!(!path_is_absolute(b""));
    assert_eq!(resolve(b"/home/me", b"/a/b"), b"/a/b".to_vec());
}

#[test]
fn resolve_joins_relative_paths_to_cwd() {
    assert_eq!(resolve(b"/home/me", b"foo.txt"), b"/home/me/foo.txt".to_vec());
    assert_eq!(resolve(b"/", b"foo.txt"), b"/foo.txt".to_vec());
    assert_eq!(join_under(b"/tmp/dr", b"1000_/a"), b"/tmp/dr/1000_/a".to_vec());
}

#[test]
fn canonical_form_wins_when_available() {
    assert_eq!(
        canonical_or_resolved(b"/a/link".to_vec(), Some(b"/real".to_vec())),
        b"/real".to_vec()
    );
    assert_eq!(
        canonical_or_resolved(b"/a/link".to_vec(), None),
        b"/a/link".to_vec()
    );
}

#[test]
fn parent_of_nested_path() {
    assert_eq!(parent_dir(b"/a/b/foo.txt"), Some(b"/a/b".to_vec()));
    assert_eq!(parent_dir(b"/foo.txt"), Some(b"/".to_vec()));
    assert_eq!(parent_dir(b"foo.txt"), None);
}

#[test]
fn relocation_by_plain_rename() {
    let (state, action) = start();
    assert_eq!(state, RelocateState::Renaming);
    assert_eq!(action, FsAction::Rename);
    let (state, action) = step(state, FsEvent::Succeeded);
    assert_eq!(state, RelocateState::Done);
    assert_eq!(action, None);
}

#[test]
fn relocation_across_devices_copies_then_removes_source() {
    let (state, _) = start();
    let (state, action) = step(state, FsEvent::CrossedDevices);
    assert_eq!(state, RelocateState::Copying);
    assert_eq!(action, Some(FsAction::CopyTree));
    let (state, action) = step(state, FsEvent::Succeeded);
    assert_eq!(state, RelocateState::RemovingSource);
    assert_eq!(action, Some(FsAction::RemoveSource));
    let (state, action) = step(state, FsEvent::Succeeded);
    assert_eq!(state, RelocateState::Done);
    assert_eq!(action, None);
}

#[test]
fn failed_copy_aborts_without_touching_source() {
    let (state, _) = start();
    let (state, _) = step(state, FsEvent::CrossedDevices);
    let (state, action) = step(state, FsEvent::Failed);
    assert_eq!(state, RelocateState::Failed);
    assert_eq!(action, None);
}

#[test]
fn failed_source_removal_takes_the_copy_back_down() {
    let (state, _) = start();
    let (state, _) = step(state, FsEvent::CrossedDevices);
    let (state, _) = step(state, FsEvent::Succeeded);
    let (state, action) = step(state, FsEvent::Failed);
    assert_eq!(state, RelocateState::UndoingCopy);
    assert_eq!(action, Some(FsAction::RemoveCopy));
    let (state, action) = step(state, FsEvent::Succeeded);
    assert_eq!(state, RelocateState::Failed);
    assert_eq!(action, None);
}

#[test]
fn plain_rename_failure_surfaces_without_fallback() {
    let (state, _) = start();
    let (state, action) = step(state, FsEvent::Failed);
    assert_eq!(state, RelocateState::Failed);
    assert_eq!(action, None);
}

#[test]
fn purge_picks_tree_or_file_removal() {
    assert_eq!(purge_action(true), PurgeAction::RemoveTree);
    assert_eq!(purge_action(false), PurgeAction::RemoveFile);
}
