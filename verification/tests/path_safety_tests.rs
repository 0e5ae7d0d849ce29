use nrip::index::{kind_from_flags, Entry, Kind};
use nrip::naming::{copying_sibling, display_id, fresh_trash_name, rand_suffix, unique_name};
use nrip::pathutil::{basename, is_strict_ancestor, parent_path, path_depth};
use nrip::safety::{classify_forbid, deny_message, guard_path, Forbid, SafetyCtx};
use nrip::wellknown::{catalog_path, graveyard_dir, is_protected_name, journal_path, lock_path};

fn b(s: &str) -> Vec<u8> {
    s.as_bytes().to_vec()
}

fn ctx(force: bool) -> SafetyCtx {
    SafetyCtx { graveyard: b("/data/nrip/graveyard"), preserve_root: true, force }
}

#[test]
fn basename_and_parent_walk_as_expected() {
    assert_eq!(basename(&b("/a/b/c.txt")), b("c.txt"));
    assert_eq!(basename(&b("/a/b/")), b("b"));
    assert_eq!(basename(&b("/")), b(""));
    assert_eq!(basename(&b("plain")), b("plain"));
    assert_eq!(parent_path(&b("/a/b")), Some(b("/a")));
    assert_eq!(parent_path(&b("/a")), Some(b("/")));
    assert_eq!(parent_path(&b("/")), None);
    assert_eq!(parent_path(&b("plain")), None);
}

#[test]
fn depth_counts_segments() {
    assert_eq!(path_depth(&b("/")), 0);
    assert_eq!(path_depth(&b("/a")), 1);
    assert_eq!(path_depth(&b("/a/b/c")), 3);
    assert_eq!(path_depth(&b("a//b/")), 2);
}

#[test]
fn ancestry_is_component_wise() {
    assert!(is_strict_ancestor(&b("/a"), &b("/a/b")));
    assert!(is_strict_ancestor(&b("/"), &b("/a")));
    assert!(is_strict_ancestor(&b("/a/"), &b("/a/b/c")));
    assert!(!is_strict_ancestor(&b("/a/b"), &b("/a")));
    assert!(!is_strict_ancestor(&b("/a"), &b("/a")));
    assert!(!is_strict_ancestor(&b("/a"), &b("/ab")));
}

#[test]
fn classify_orders_reasons_by_priority() {
    let c = ctx(false);
    assert_eq!(classify_forbid(&b(""), &c), Some(Forbid::Empty));
    assert_eq!(classify_forbid(&b("."), &c), Some(Forbid::Dot));
    assert_eq!(classify_forbid(&b(".."), &c), Some(Forbid::DotDot));
    assert_eq!(classify_forbid(&b("/"), &c), Some(Forbid::Root));
    assert_eq!(classify_forbid(&b("//"), &c), Some(Forbid::Root));
    assert_eq!(classify_forbid(&b("/data/nrip/graveyard"), &c), Some(Forbid::GraveyardItself));
    assert_eq!(classify_forbid(&b("/data/nrip/graveyard/"), &c), Some(Forbid::GraveyardItself));
    assert_eq!(classify_forbid(&b("/data/nrip/graveyard/x"), &c), Some(Forbid::InsideGraveyard));
    assert_eq!(classify_forbid(&b("/tmp/index.json"), &c), Some(Forbid::IndexFile));
    assert_eq!(classify_forbid(&b("/tmp/.index.lock"), &c), Some(Forbid::IndexFile));
    assert_eq!(classify_forbid(&b("/tmp/.journal"), &c), Some(Forbid::JournalFile));
    assert_eq!(classify_forbid(&b("/tmp/safe.txt"), &c), None);
}

#[test]
fn root_refusal_resists_force() {
    assert_eq!(guard_path(&b("/"), &ctx(true)), Err(Forbid::Root));
    assert!(guard_path(&b("/tmp/.journal"), &ctx(true)).is_ok());
    assert_eq!(guard_path(&b("/tmp/.journal"), &ctx(false)), Err(Forbid::JournalFile));
    assert!(guard_path(&b("/tmp/ok.txt"), &ctx(false)).is_ok());
    assert!(deny_message(Forbid::Root).contains("cannot be overridden"));
}

#[test]
fn well_known_paths_are_laid_out_under_the_data_dir() {
    let data = b("/data/nrip");
    assert_eq!(graveyard_dir(&data), b("/data/nrip/graveyard"));
    assert_eq!(journal_path(&data), b("/data/nrip/graveyard/.journal"));
    assert_eq!(catalog_path(&data), b("/data/nrip/index.json"));
    assert_eq!(lock_path(&data), b("/data/nrip/.index.lock"));
    assert!(is_protected_name(&b(".journal")));
    assert!(is_protected_name(&b(".index.lock")));
    assert!(!is_protected_name(&b("stray")));
}

#[test]
fn kind_is_read_from_flags_in_priority_order() {
    assert_eq!(kind_from_flags(true, false, false), Kind::Dir);
    assert_eq!(kind_from_flags(false, true, false), Kind::File);
    assert_eq!(kind_from_flags(false, false, true), Kind::Symlink);
    assert_eq!(kind_from_flags(false, false, false), Kind::Other);
}

#[test]
fn trashed_names_carry_timestamp_suffix_and_basename() {
    let ts = b("20240101T000000");
    let suffix = b("AbCdEfGh");
    let name = unique_name(&ts, &suffix, &b("report.txt"));
    assert_eq!(name, b("20240101T000000__AbCdEfGh__report.txt"));
    let parts: Vec<&[u8]> = name.split(|&x| x == b'_').filter(|s| !s.is_empty()).collect();
    assert_eq!(parts[0], &b("20240101T000000")[..]);
}

#[test]
fn random_suffix_is_eight_base64url_bytes() {
    let s1 = rand_suffix();
    assert_eq!(s1.len(), 8);
    for &c in &s1 {
        assert!(c.is_ascii_alphanumeric() || c == b'-' || c == b'_');
    }
}

#[test]
fn display_id_reads_the_middle_of_the_trashed_name() {
    let e = Entry {
        original_path: b("/home/u/report.txt"),
        trashed_path: b("/g/20240101T000000__AbCdEfGh__report.txt"),
        deleted_at: 0,
        kind: Kind::File,
    };
    assert_eq!(display_id(&e), b("AbCdEfG"));
    let no_sep = Entry {
        original_path: b("/x"),
        trashed_path: b("/g/plainname"),
        deleted_at: 0,
        kind: Kind::File,
    };
    assert_eq!(display_id(&no_sep), b("-"));
}

#[test]
fn copying_sibling_swaps_the_extension() {
    assert_eq!(copying_sibling(&b("/g/a__b__name.txt")), b("/g/a__b__name.copying"));
    assert_eq!(copying_sibling(&b("/g/a__b__noext")), b("/g/a__b__noext.copying"));
    assert_eq!(copying_sibling(&b("/g/.hidden")), b("/g/.hidden.copying"));
}

#[test]
fn fresh_names_follow_the_trashed_name_scheme() {
    let name = fresh_trash_name(&b("report.txt"));
    let text = String::from_utf8(name.clone()).unwrap();
    assert!(text.ends_with("__report.txt"), "name: {text}");
    let parts: Vec<&str> = text.split("__").collect();
    assert!(parts.len() >= 3, "name: {text}");
    assert!(!parts[0].is_empty());
    for c in parts[0].chars() {
        assert!(c.is_ascii_digit() || c == 'T' || c == '-' || c == '+', "name: {text}");
    }
    let two = fresh_trash_name(&b("report.txt"));
    assert_ne!(name, two, "two fresh names for one basename should differ");
}
