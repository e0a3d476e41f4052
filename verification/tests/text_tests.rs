use video_reencoding_net::install::plan_install;
use video_reencoding_net::paths::{file_name, relative_to, resolve, under_root};
use video_reencoding_net::probe::{classify, needs_conversion, parse_label, ProbeError, ProbeReport};
use video_reencoding_net::text::{chars_of, decimal_string};
use video_reencoding_net::walk::{DirEntry, EntryKind, Walker};

fn entry(name: &str, kind: EntryKind) -> DirEntry {
    DirEntry { name: name.to_string(), kind }
}

#[test]
fn chars_of_gives_every_character() {
    assert_eq!(chars_of(""), Vec::<char>::new());
    assert_eq!(chars_of("a/b"), vec!['a', '/', 'b']);
    assert_eq!(chars_of("für"), vec!['f', 'ü', 'r']);
}

#[test]
fn decimal_numerals() {
    assert_eq!(decimal_string(0), "0");
    assert_eq!(decimal_string(7), "7");
    assert_eq!(decimal_string(10), "10");
    assert_eq!(decimal_string(105), "105");
    assert_eq!(decimal_string(9_876_543_210), "9876543210");
    assert_eq!(decimal_string(usize::MAX), usize::MAX.to_string());
    for n in 0..1000 {
        assert_eq!(decimal_string(n), n.to_string());
    }
}

#[test]
fn resolve_joins_with_a_slash() {
    assert_eq!(resolve("/lib", "a.mkv"), "/lib/a.mkv");
    assert_eq!(resolve("/lib", "films/a.mkv"), "/lib/films/a.mkv");
    assert_eq!(resolve("C:\\lib", "a.mkv"), "C:\\lib/a.mkv");
    assert_eq!(resolve("", ""), "/");
}

#[test]
fn relative_path_of_a_file_below_the_root() {
    assert_eq!(relative_to("/lib", "/lib/a.mkv"), Some("a.mkv".to_string()));
    assert_eq!(relative_to("/lib", "/lib/films/lib/a.mkv"), Some("films/lib/a.mkv".to_string()));
    assert_eq!(relative_to("/lib", "/lib/"), Some("".to_string()));
    assert_eq!(relative_to("/büch", "/büch/ä.mkv"), Some("ä.mkv".to_string()));
    assert_eq!(relative_to("", "/a.mkv"), Some("a.mkv".to_string()));
}

#[test]
fn no_relative_path_outside_the_root() {
    assert_eq!(relative_to("/lib", "/lib"), None);
    assert_eq!(relative_to("/lib", "/library/a.mkv"), None);
    assert_eq!(relative_to("/lib", "/other/a.mkv"), None);
    assert_eq!(relative_to("/lib", "/li"), None);
    assert_eq!(relative_to("/lib", ""), None);
    assert_eq!(relative_to("/lib", "/lib\\a.mkv"), None);
    assert!(under_root("/lib", "/lib/a"));
    assert!(!under_root("/lib", "/lab/a"));
    assert!(under_root("", "/a"));
}

#[test]
fn resolve_and_relative_to_undo_each_other() {
    for (root, relative) in [("/lib", "a.mkv"), ("/lib", "x/y/z.mkv"), ("", "a"), ("/lib/", "a.mkv")] {
        let path = resolve(root, relative);
        assert_eq!(relative_to(root, &path), Some(relative.to_string()));
    }
    for (root, path) in [("/lib", "/lib/a.mkv"), ("/a/b", "/a/b/c/d")] {
        let relative = relative_to(root, path).unwrap();
        assert_eq!(resolve(root, &relative), path);
    }
}

#[test]
fn file_name_is_the_last_component() {
    assert_eq!(file_name("a.mkv"), "a.mkv");
    assert_eq!(file_name("films/a.mkv"), "a.mkv");
    assert_eq!(file_name("films\\new\\a.mkv"), "a.mkv");
    assert_eq!(file_name("films/new\\a.mkv"), "a.mkv");
    assert_eq!(file_name("films\\new/a.mkv"), "a.mkv");
    assert_eq!(file_name("films/"), "");
    assert_eq!(file_name(""), "");
    assert_eq!(file_name("/"), "");
}

#[test]
fn install_plan_names_both_files() {
    let plan = plan_install("/lib", "films/new\\a.mkv");
    assert_eq!(plan.staging, "./a.mkv");
    assert_eq!(plan.destination, "/lib/films/new\\a.mkv");
    let plan = plan_install("/lib", "a.mkv");
    assert_eq!(plan.staging, "./a.mkv");
    assert_eq!(plan.destination, "/lib/a.mkv");
}

#[test]
fn label_is_the_first_line() {
    assert_eq!(parse_label("h264\nvideo\naac\naudio\n"), Some("h264".to_string()));
    assert_eq!(parse_label("hevc"), Some("hevc".to_string()));
    assert_eq!(parse_label("h264\r\nvideo\r\n"), Some("h264".to_string()));
    assert_eq!(parse_label("h264\r"), Some("h264\r".to_string()));
    assert_eq!(parse_label("h2\r64\n"), Some("h2\r64".to_string()));
    assert_eq!(parse_label(" h264 \n"), Some(" h264 ".to_string()));
}

#[test]
fn label_agrees_with_the_first_of_lines() {
    for text in ["h264\nvideo\n", "hevc", "h264\r\nvideo\r\n", "h264\r", "a\r\r\nb", "x\n\ny"] {
        assert_eq!(parse_label(text).as_deref(), text.lines().next());
    }
}

#[test]
fn no_label_without_a_first_line() {
    assert_eq!(parse_label(""), None);
    assert_eq!(parse_label("\n"), None);
    assert_eq!(parse_label("\r\n"), None);
    assert_eq!(parse_label("\nh264\n"), None);
}

#[test]
fn classify_gives_label_or_error() {
    assert_eq!(classify(&ProbeReport::Output("h264\nvideo\n".to_string())), Ok("h264".to_string()));
    assert_eq!(classify(&ProbeReport::Output("vp9\n".to_string())), Ok("vp9".to_string()));
    assert_eq!(classify(&ProbeReport::Output("".to_string())), Err(ProbeError::NoStream));
    assert_eq!(classify(&ProbeReport::Output("\nh264".to_string())), Err(ProbeError::NoStream));
    assert_eq!(classify(&ProbeReport::Unavailable), Err(ProbeError::Unavailable));
}

#[test]
fn classify_is_deterministic() {
    let report = ProbeReport::Output("h264\nvideo\n".to_string());
    assert_eq!(classify(&report), classify(&report));
}

#[test]
fn only_the_source_codec_needs_conversion() {
    assert!(needs_conversion("h264"));
    assert!(!needs_conversion("hevc"));
    assert!(!needs_conversion("H264"));
    assert!(!needs_conversion("h264 "));
    assert!(!needs_conversion("h26"));
    assert!(!needs_conversion(""));
    assert!(!needs_conversion("h264\r"));
}

#[test]
fn walk_follows_the_listings_depth_first() {
    let mut walker = Walker::new("/lib");
    assert!(!walker.is_finished());
    assert_eq!(walker.next_directory(), Some("/lib".to_string()));
    // Asking again names the same directory.
    assert_eq!(walker.next_directory(), Some("/lib".to_string()));
    walker.add_listing(&[
        entry("a.mkv", EntryKind::File),
        entry("films", EntryKind::Directory),
        entry("socket", EntryKind::Other),
        entry("b.mkv", EntryKind::File),
        entry("shows", EntryKind::Directory),
    ]);
    assert_eq!(walker.next_directory(), Some("/lib/films".to_string()));
    walker.add_listing(&[
        entry("old", EntryKind::Directory),
        entry("c.mkv", EntryKind::File),
    ]);
    assert_eq!(walker.next_directory(), Some("/lib/films/old".to_string()));
    walker.add_listing(&[entry("d.mkv", EntryKind::File)]);
    assert_eq!(walker.next_directory(), Some("/lib/shows".to_string()));
    walker.add_listing(&[]);
    assert_eq!(walker.next_directory(), None);
    assert!(walker.is_finished());
    assert_eq!(
        walker.into_files(),
        vec![
            "/lib/a.mkv".to_string(),
            "/lib/films/old/d.mkv".to_string(),
            "/lib/films/c.mkv".to_string(),
            "/lib/b.mkv".to_string(),
        ]
    );
}

#[test]
fn walk_of_an_empty_directory_finds_nothing() {
    let mut walker = Walker::new("/empty");
    assert_eq!(walker.next_directory(), Some("/empty".to_string()));
    walker.add_listing(&[]);
    assert_eq!(walker.next_directory(), None);
    assert_eq!(walker.next_directory(), None);
    assert_eq!(walker.into_files(), Vec::<String>::new());
}

#[test]
fn listing_that_was_not_asked_for_is_ignored() {
    let mut walker = Walker::new("/lib");
    walker.add_listing(&[entry("stray.mkv", EntryKind::File)]);
    assert_eq!(walker.next_directory(), Some("/lib".to_string()));
    walker.add_listing(&[entry("a.mkv", EntryKind::File)]);
    walker.add_listing(&[entry("late.mkv", EntryKind::File)]);
    assert_eq!(walker.next_directory(), None);
    assert_eq!(walker.into_files(), vec!["/lib/a.mkv".to_string()]);
}
