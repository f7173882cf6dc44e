use repo_sync::fs::{Directory, File};
use repo_sync::host::Remote;
use repo_sync::path::{strip_path_trailing_sep, EntryPath, PathOrder};
use repo_sync::scan::{gitignore_line_keeps, DirectoryScanList};
use repo_sync::text::parse_u64;

fn b(s: &str) -> Vec<u8> {
    s.as_bytes().to_vec()
}

fn p(s: &str) -> EntryPath {
    EntryPath::parse(&b(s)).unwrap()
}

#[test]
fn path_parse_and_display_round_trip() {
    for s in ["a.txt", "sub/a.txt", "a/b/c", "with space/f g"] {
        let path = p(s);
        assert_eq!(path.display_bytes(), b(s));
    }
    assert_eq!(p("a/b/c").segments, vec![b"a".to_vec(), b"b".to_vec(), b"c".to_vec()]);
}

#[test]
fn path_parse_rejects_malformed_spellings() {
    for s in ["", "/a", "a/", "a//b", "/"] {
        assert!(EntryPath::parse(&b(s)).is_none(), "accepted {:?}", s);
    }
}

#[test]
fn path_order_is_lexicographic_by_segments() {
    assert_eq!(p("a").cmp(&p("a/b")), PathOrder::Lt);
    assert_eq!(p("a/b").cmp(&p("a/b")), PathOrder::Eq);
    assert_eq!(p("b").cmp(&p("a/b")), PathOrder::Gt);
    assert_eq!(p("a/b").cmp(&p("a!c")), PathOrder::Lt);
}

#[test]
fn strip_trailing_separator() {
    assert_eq!(strip_path_trailing_sep(b("x/y/")), b("x/y"));
    assert_eq!(strip_path_trailing_sep(b("x/y")), b("x/y"));
    assert_eq!(strip_path_trailing_sep(b("")), b(""));
    assert_eq!(strip_path_trailing_sep(b("/")), b(""));
}

#[test]
fn remote_descriptor_parsing() {
    let r = Remote::parse(&b("box:code/proj")).unwrap();
    assert_eq!(r.host.name(), &b("box"));
    assert_eq!(r.dir, b("code/proj"));

    let r = Remote::parse(&b("box:code/proj/")).unwrap();
    assert_eq!(r.dir, b("code/proj"));

    let r = Remote::parse(&b("box:~/code")).unwrap();
    assert_eq!(r.dir, b("code"));

    let r = Remote::parse(&b("box:~")).unwrap();
    assert_eq!(r.dir, b(""));

    let r = Remote::parse(&b("box:a:b")).unwrap();
    assert_eq!(r.host.name(), &b("box"));
    assert_eq!(r.dir, b("a:b"));

    assert!(Remote::parse(&b("no-colon-here")).is_none());
}

#[test]
fn listing_parses_mixed_entries() {
    let out = b("sub d 4096\nsub/a.txt f 10\nmy file.txt f 5\n");
    let scan = DirectoryScanList::from_remote_listing(&out).unwrap();
    assert_eq!(scan.directories, vec![Directory::new(p("sub"))]);
    assert_eq!(
        scan.files,
        vec![File::new(p("sub/a.txt"), 10), File::new(p("my file.txt"), 5)]
    );
}

#[test]
fn listing_empty_output() {
    let scan = DirectoryScanList::from_remote_listing(&b("  \n ")).unwrap();
    assert!(scan.directories.is_empty());
    assert!(scan.files.is_empty());
}

#[test]
fn listing_rejects_malformed_lines() {
    // The second line has a bad type character.
    assert_eq!(
        DirectoryScanList::from_remote_listing(&b("a f 1\nb x 2\n")),
        Err(1)
    );
    // No spaces at all.
    assert_eq!(DirectoryScanList::from_remote_listing(&b("garbage")), Err(0));
    // A size that is not a number.
    assert_eq!(DirectoryScanList::from_remote_listing(&b("a f ten")), Err(0));
    // A size too large for 64 bits.
    assert_eq!(
        DirectoryScanList::from_remote_listing(&b("a f 18446744073709551616")),
        Err(0)
    );
    // A blank line in the middle.
    assert_eq!(DirectoryScanList::from_remote_listing(&b("a f 1\n\nb f 2")), Err(1));
}

#[test]
fn listing_accepts_largest_size() {
    let scan = DirectoryScanList::from_remote_listing(&b("a f 18446744073709551615")).unwrap();
    assert_eq!(scan.files, vec![File::new(p("a"), u64::MAX)]);
}

#[test]
fn decimal_parsing() {
    assert_eq!(parse_u64(&b("0")), Some(0));
    assert_eq!(parse_u64(&b("1234")), Some(1234));
    assert_eq!(parse_u64(&b("18446744073709551615")), Some(u64::MAX));
    assert_eq!(parse_u64(&b("18446744073709551616")), None);
    assert_eq!(parse_u64(&b("")), None);
    assert_eq!(parse_u64(&b("12a")), None);
    assert_eq!(parse_u64(&b("+3")), None);
}

#[test]
fn ignore_answers_without_pattern_keep_the_entry() {
    assert_eq!(gitignore_line_keeps(&b("::\tsrc/a.rs\n")), Some(true));
}

#[test]
fn ignore_answers_with_pattern_drop_the_entry() {
    assert_eq!(
        gitignore_line_keeps(&b(".gitignore:3:target\ttarget/out\n")),
        Some(false)
    );
}

#[test]
fn ignore_negation_pattern_keeps_the_entry() {
    assert_eq!(
        gitignore_line_keeps(&b(".gitignore:4:!keep.txt\tkeep.txt\n")),
        Some(true)
    );
}

#[test]
fn version_control_directory_is_always_dropped() {
    assert_eq!(gitignore_line_keeps(&b("::\t.git\n")), Some(false));
    assert_eq!(gitignore_line_keeps(&b("::\t.git/config\n")), Some(false));
    assert_eq!(gitignore_line_keeps(&b("::\t.gitignore\n")), Some(true));
}

#[test]
fn ignore_answers_of_the_wrong_shape_fail() {
    assert_eq!(gitignore_line_keeps(&b("no tab here")), None);
    assert_eq!(gitignore_line_keeps(&b("nocolon\tpath")), None);
    assert_eq!(gitignore_line_keeps(&b("one:colon\tpath")), None);
}

#[test]
fn retain_flagged_keeps_exactly_the_flagged_entries() {
    let scan = DirectoryScanList::from_parts(
        vec![Directory::new(p("a")), Directory::new(p("b"))],
        vec![File::new(p("x"), 1), File::new(p("y"), 2), File::new(p("z"), 3)],
    );
    let filtered = scan.retain_flagged(&vec![false, true], &vec![true, false, true]);
    assert_eq!(filtered.directories, vec![Directory::new(p("b"))]);
    assert_eq!(filtered.files, vec![File::new(p("x"), 1), File::new(p("z"), 3)]);
}

#[test]
fn snapshot_invariant_check() {
    let good = DirectoryScanList::from_parts(
        vec![Directory::new(p("d"))],
        vec![File::new(p("f"), 1)],
    );
    assert!(good.check_wf());
    let dup_file = DirectoryScanList::from_parts(
        vec![],
        vec![File::new(p("f"), 1), File::new(p("f"), 2)],
    );
    assert!(!dup_file.check_wf());
    let dup_dir = DirectoryScanList::from_parts(
        vec![Directory::new(p("d")), Directory::new(p("d"))],
        vec![],
    );
    assert!(!dup_dir.check_wf());
    let collision = DirectoryScanList::from_parts(
        vec![Directory::new(p("x"))],
        vec![File::new(p("x"), 1)],
    );
    assert!(!collision.check_wf());
}
