use nrip::index::{Entry, Kind};
use nrip::journal::{journal_line, JournalTag};
use nrip::listing::{build_fzf_lines, compact_age, kind_icon, kind_letter, list_line};
use nrip::index::Index;
use nrip::moveplan::{
    initial_move_state, move_action, move_step, restore_followup, MoveAction, MoveEvent,
    MoveState, RestorePlan,
};

fn b(s: &str) -> Vec<u8> {
    s.as_bytes().to_vec()
}

fn drive(events: &[MoveEvent]) -> (MoveState, Vec<MoveAction>) {
    let mut s = initial_move_state();
    let mut actions = vec![move_action(s)];
    for &e in events {
        s = move_step(s, e);
        actions.push(move_action(s));
    }
    (s, actions)
}

#[test]
fn same_filesystem_move_syncs_then_finishes() {
    let (s, actions) = drive(&[MoveEvent::Succeeded, MoveEvent::Succeeded]);
    assert_eq!(s, MoveState::Done);
    assert_eq!(
        actions,
        vec![MoveAction::AttemptRename, MoveAction::SyncDestDir, MoveAction::Finished]
    );
}

#[test]
fn cross_device_move_copies_swaps_syncs_then_removes_source() {
    let events = [
        MoveEvent::CrossDevice,
        MoveEvent::Succeeded,
        MoveEvent::Succeeded,
        MoveEvent::Succeeded,
        MoveEvent::Succeeded,
        MoveEvent::Succeeded,
    ];
    let (s, actions) = drive(&events);
    assert_eq!(s, MoveState::Done);
    assert_eq!(
        actions,
        vec![
            MoveAction::AttemptRename,
            MoveAction::CopyToTemp,
            MoveAction::SyncDestDir,
            MoveAction::SwapTempIntoPlace,
            MoveAction::SyncDestDir,
            MoveAction::RemoveSource,
            MoveAction::Finished,
        ]
    );
    // the temporary is consumed by the swap before the source goes away:
    // removal is requested only after the final sync succeeded
    let remove_at = actions.iter().position(|a| *a == MoveAction::RemoveSource).unwrap();
    let swap_at = actions.iter().position(|a| *a == MoveAction::SwapTempIntoPlace).unwrap();
    assert!(swap_at < remove_at);
    assert_eq!(actions[remove_at - 1], MoveAction::SyncDestDir);
}

#[test]
fn any_failure_aborts_without_touching_the_source() {
    let (s, _) = drive(&[MoveEvent::Failed]);
    assert_eq!(s, MoveState::Failed);
    let (s2, actions2) = drive(&[MoveEvent::CrossDevice, MoveEvent::Succeeded, MoveEvent::Failed]);
    assert_eq!(s2, MoveState::Failed);
    assert!(!actions2.contains(&MoveAction::RemoveSource));
}

#[test]
fn restore_falls_back_on_cross_device_only() {
    assert_eq!(restore_followup(MoveEvent::Succeeded), RestorePlan::Done);
    assert_eq!(restore_followup(MoveEvent::CrossDevice), RestorePlan::CopyThenRemove);
    assert_eq!(restore_followup(MoveEvent::Failed), RestorePlan::Fail);
}

#[test]
fn journal_records_are_tab_separated_lines() {
    assert_eq!(
        journal_line(JournalTag::Pending, &b("/home/u/x"), &b("x")),
        b("PENDING\t/home/u/x\tx\n")
    );
    assert_eq!(
        journal_line(JournalTag::Done, &b("/home/u/x"), &b("/g/t")),
        b("DONE\t/home/u/x\t/g/t\n")
    );
    assert_eq!(
        journal_line(JournalTag::RestorePending, &b("/g/t"), &b("/home/u/x")),
        b("RESTORE_PENDING\t/g/t\t/home/u/x\n")
    );
    assert_eq!(
        journal_line(JournalTag::RestoreDone, &b("/g/t"), &b("/home/u/x")),
        b("RESTORE_DONE\t/g/t\t/home/u/x\n")
    );
}

#[test]
fn ages_render_with_at_most_two_units() {
    assert_eq!(compact_age(0), b("0s"));
    assert_eq!(compact_age(59), b("59s"));
    assert_eq!(compact_age(107), b("1m47s"));
    assert_eq!(compact_age(3600 * 3 + 12 * 60), b("3h12m"));
    assert_eq!(compact_age(86400 * 2), b("2d"));
    assert_eq!(compact_age(604800 + 3), b("1w3s"));
    assert_eq!(compact_age(604800 * 2 + 86400 * 3), b("2w3d"));
}

#[test]
fn kind_markers_cover_every_kind() {
    assert_eq!(kind_letter(Kind::File), b'F');
    assert_eq!(kind_letter(Kind::Dir), b'D');
    assert_eq!(kind_letter(Kind::Symlink), b'L');
    assert_eq!(kind_letter(Kind::Other), b'?');
    assert_eq!(kind_icon(Kind::File), "\u{1F4C4}");
    assert_eq!(kind_icon(Kind::Dir), "\u{1F4C1}");
}

#[test]
fn listing_a_buried_file_names_it() {
    let e = Entry {
        original_path: b("/home/u/report.txt"),
        trashed_path: b("/g/20240101T000000__AbCdEfGh__report.txt"),
        deleted_at: 100,
        kind: Kind::File,
    };
    let line = list_line(&e, &b("2024-01-01 00:01:40"), 300);
    let text = String::from_utf8(line).unwrap();
    assert!(text.contains("report.txt"), "line: {}", text);
    assert!(text.contains("AbCdEfG"), "line: {}", text);
    assert!(text.contains("(3m20s)"), "line: {}", text);
    assert!(text.contains(" F "), "line: {}", text);
}

#[test]
fn picker_lines_show_the_epoch_in_utc() {
    let idx = Index {
        items: vec![Entry {
            original_path: b("/home/u/a.txt"),
            trashed_path: b("/g/x__y__a.txt"),
            deleted_at: 0,
            kind: Kind::File,
        }],
    };
    let lines = build_fzf_lines(&idx);
    assert_eq!(lines.len(), 1);
    let text = String::from_utf8(lines[0].clone()).unwrap();
    assert!(text.starts_with("0\t"), "line: {text}");
    assert!(text.contains("1970-01-01 00:00:00 UTC"), "line: {text}");
    assert!(text.contains("/home/u/a.txt\t->\t/g/x__y__a.txt"), "line: {text}");
}
