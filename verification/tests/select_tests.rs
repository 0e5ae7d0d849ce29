use nrip::codec::save_entries;
use nrip::index::{find_by_original, find_by_trashed, Entry, Kind};
use nrip::select::{
    completion_candidates, confirm_mode, doomed_paths, expand_selection, flags_from_indices,
    prune_rebuild, select_matches, sort_by_depth, try_pick_entries, typed_token_accepted,
    yes_no_accepted, Confirmation,
};

fn b(s: &str) -> Vec<u8> {
    s.as_bytes().to_vec()
}

fn entry(orig: &str, trash: &str) -> Entry {
    Entry { original_path: b(orig), trashed_path: b(trash), deleted_at: 1, kind: Kind::File }
}

fn catalog() -> Vec<Entry> {
    vec![
        entry("/home/u/Report.txt", "/g/20240101T000000__AbCdEfGh__Report.txt"),
        entry("/home/u/notes.md", "/g/20240101T000001__XyZw1234__notes.md"),
        entry("/home/u/photo.jpg", "/g/20240101T000002__QqWwEeRr__photo.jpg"),
    ]
}

#[test]
fn selection_matches_basenames_case_insensitively() {
    let c = catalog();
    assert_eq!(select_matches(&c, &b("report")), vec![0]);
    assert_eq!(select_matches(&c, &b("NOTES")), vec![1]);
    assert_eq!(select_matches(&c, &b("o")), vec![0, 1, 2]);
    assert!(select_matches(&c, &b("absent")).is_empty());
}

#[test]
fn selection_matches_short_id_prefixes() {
    let c = catalog();
    assert_eq!(select_matches(&c, &b("abcd")), vec![0]);
    assert_eq!(select_matches(&c, &b("xyzw")), vec![1]);
}

#[test]
fn two_buried_files_with_one_basename_stay_distinct() {
    let c = vec![
        entry("/a/dup.txt", "/g/20240101T000000__AAAABBBB__dup.txt"),
        entry("/b/dup.txt", "/g/20240101T000000__CCCCDDDD__dup.txt"),
    ];
    assert_ne!(c[0].trashed_path, c[1].trashed_path);
    assert_eq!(select_matches(&c, &b("dup.txt")), vec![0, 1]);
    assert_eq!(find_by_trashed(&c, &c[0].trashed_path), Some(0));
    assert_eq!(find_by_trashed(&c, &c[1].trashed_path), Some(1));
}

#[test]
fn bury_then_resurrect_restores_the_catalog() {
    let mut c = catalog();
    let before = save_entries(&c);
    let buried = entry("/home/u/new.txt", "/g/20240102T000000__ZzYyXxWw__new.txt");
    c.push(buried);
    let pos = find_by_trashed(&c, &b("/g/20240102T000000__ZzYyXxWw__new.txt")).unwrap();
    assert_eq!(pos, 3);
    c.remove(pos);
    assert_eq!(save_entries(&c), before);
    assert!(find_by_trashed(&c, &b("/g/20240102T000000__ZzYyXxWw__new.txt")).is_none());
}

#[test]
fn restoring_a_child_pulls_in_its_buried_parent() {
    let c = vec![
        entry("/home/u/test/popo", "/g/a__b__popo"),
        entry("/home/u/test", "/g/a__b__test"),
        entry("/home/u/other", "/g/a__b__other"),
    ];
    assert_eq!(find_by_original(&c, &b("/home/u/test")), Some(1));
    assert_eq!(find_by_original(&c, &b("/home/u")), None);
    let picked = select_matches(&c, &b("popo"));
    assert_eq!(picked, vec![0]);
    let mut sel = flags_from_indices(c.len(), &picked);
    expand_selection(&c, &mut sel);
    assert_eq!(sel, vec![true, true, false]);
}

#[test]
fn restore_order_puts_parents_before_children() {
    let c = vec![
        entry("/home/u/test/popo", "/g/a__b__popo"),
        entry("/home/u/test", "/g/a__b__test"),
    ];
    let sorted = sort_by_depth(c);
    assert_eq!(sorted[0].original_path, b("/home/u/test"));
    assert_eq!(sorted[1].original_path, b("/home/u/test/popo"));
}

#[test]
fn resurrect_after_restore_is_a_quiet_no_op() {
    let mut c = vec![
        entry("/home/u/test/popo", "/g/a__b__popo"),
        entry("/home/u/test", "/g/a__b__test"),
    ];
    // restore both, parent first, as the hierarchy closure orders them
    let parent = find_by_trashed(&c, &b("/g/a__b__test")).unwrap();
    c.remove(parent);
    let child = find_by_trashed(&c, &b("/g/a__b__popo")).unwrap();
    c.remove(child);
    // a later restore naming the parent finds nothing to do
    assert!(select_matches(&c, &b("test")).is_empty());
    assert!(find_by_trashed(&c, &b("/g/a__b__test")).is_none());
}

#[test]
fn prune_with_no_match_leaves_catalog_bytes_unchanged() {
    let c = catalog();
    let before = save_entries(&c);
    let picked = select_matches(&c, &b("absent"));
    assert!(picked.is_empty());
    let doomed = doomed_paths(&c, &picked);
    let kept = prune_rebuild(&c, &doomed, &Vec::new());
    assert_eq!(save_entries(&kept), before);
}

#[test]
fn prune_drops_doomed_entries_but_keeps_failures() {
    let c = catalog();
    let picked = select_matches(&c, &b("o"));
    assert_eq!(picked.len(), 3);
    let doomed = doomed_paths(&c, &picked);
    let failed = vec![c[1].trashed_path.clone()];
    let kept = prune_rebuild(&c, &doomed, &failed);
    assert_eq!(kept.len(), 1);
    assert_eq!(kept[0].original_path, b("/home/u/notes.md"));
    let none_failed = prune_rebuild(&c, &doomed, &Vec::new());
    assert!(none_failed.is_empty());
}

#[test]
fn confirmation_policy_follows_the_flags() {
    assert_eq!(confirm_mode(3, 3, true, false), Confirmation::DryRun);
    assert_eq!(confirm_mode(3, 3, false, false), Confirmation::AskTyped);
    assert_eq!(confirm_mode(3, 3, false, true), Confirmation::Proceed);
    assert_eq!(confirm_mode(1, 3, false, false), Confirmation::AskYesNo);
    assert_eq!(confirm_mode(1, 3, false, true), Confirmation::Proceed);
    assert_eq!(confirm_mode(2, 3, false, false), Confirmation::Proceed);
}

#[test]
fn typed_confirmations_are_strict() {
    assert!(typed_token_accepted(&b("YES\n")));
    assert!(typed_token_accepted(&b("  YES  ")));
    assert!(!typed_token_accepted(&b("yes\n")));
    assert!(!typed_token_accepted(&b("Y")));
    assert!(yes_no_accepted(&b("y\n")));
    assert!(yes_no_accepted(&b("Y\n")));
    assert!(!yes_no_accepted(&b("n\n")));
    assert!(!yes_no_accepted(&b("yy")));
}

#[test]
fn missing_picker_reads_as_an_empty_choice() {
    let gone = try_pick_entries(Err(b("spawn fzf: No such file or directory (os error 2)")));
    assert_eq!(gone.unwrap(), Vec::<usize>::new());
    let gone2 = try_pick_entries(Err(b("program not found")));
    assert_eq!(gone2.unwrap(), Vec::<usize>::new());
    let real = try_pick_entries(Err(b("permission denied")));
    assert!(real.is_err());
    let picked = try_pick_entries(Ok(vec![2, 0]));
    assert_eq!(picked.unwrap(), vec![2, 0]);
}

#[test]
fn completion_lists_ids_and_basenames_sorted() {
    let c = catalog();
    let all = completion_candidates(&c, None);
    let mut expected = vec![
        b("AbCdEfG"),
        b("XyZw123"),
        b("QqWwEeR"),
        b("Report.txt"),
        b("notes.md"),
        b("photo.jpg"),
    ];
    expected.sort();
    assert_eq!(all, expected);
    let filtered = completion_candidates(&c, Some(&b("rep")));
    assert_eq!(filtered, vec![b("Report.txt")]);
    let by_id = completion_candidates(&c, Some(&b("xyz")));
    assert_eq!(by_id, vec![b("XyZw123")]);
}
