use rust_seek::encoding::{decode, is_binary};
use rust_seek::matcher::SearchPattern;
use rust_seek::searcher::{
    byte_ranges_to_char_ranges, collect_matches, file_icon, fmt_size, make_paths, match_filename, nfc,
    search_contents, search_filename_with_size, searchable_size, truncate,
};

fn pattern(p: &str) -> SearchPattern {
    match SearchPattern::new(p, true, false) {
        Ok(re) => re,
        Err(e) => panic!("pattern {p} refused: {e}"),
    }
}

#[test]
fn icons_follow_extension_without_case() {
    assert_eq!(file_icon("src/main.rs"), "📝");
    assert_eq!(file_icon("SETUP.EXE"), "⚙");
    assert_eq!(file_icon("run.sh"), "⚙");
    assert_eq!(file_icon("photo.JpEg"), "🖼");
    assert_eq!(file_icon("notes.md"), "📄");
    assert_eq!(file_icon("Cargo.toml"), "🔧");
    assert_eq!(file_icon("movie.mkv"), "🎬");
    assert_eq!(file_icon("song.flac"), "🎵");
    assert_eq!(file_icon("backup.tar.gz"), "📦");
    assert_eq!(file_icon("report.pdf"), "📕");
    assert_eq!(file_icon("letter.docx"), "📘");
    assert_eq!(file_icon("table.xlsx"), "📗");
    assert_eq!(file_icon("deck.pptx"), "📙");
    assert_eq!(file_icon("shortcut.lnk"), "🔗");
    assert_eq!(file_icon("data.sqlite"), "🗄");
    assert_eq!(file_icon("main.c"), "📝");
}

#[test]
fn icons_default_to_document() {
    assert_eq!(file_icon("Makefile"), "📄");
    assert_eq!(file_icon("trailing."), "📄");
    assert_eq!(file_icon("dir.d/file"), "📄");
    assert_eq!(file_icon(""), "📄");
    assert_eq!(file_icon("x.ÉXE"), "📄");
}

#[test]
fn sizes_in_bytes() {
    assert_eq!(fmt_size(0), "0 B");
    assert_eq!(fmt_size(512), "512 B");
    assert_eq!(fmt_size(1023), "1023 B");
}

#[test]
fn sizes_in_kilobytes() {
    assert_eq!(fmt_size(1024), "1.0 KB");
    assert_eq!(fmt_size(1536), "1.5 KB");
    assert_eq!(fmt_size(10 * 1024 + 100), "10.1 KB");
    assert_eq!(fmt_size(1048575), "1024.0 KB");
}

#[test]
fn sizes_in_megabytes() {
    assert_eq!(fmt_size(1048576), "1.0 MB");
    assert_eq!(fmt_size(5 * 1048576 + 524288), "5.5 MB");
}

#[test]
fn sizes_agree_with_float_formatting() {
    let mut samples: Vec<u64> = vec![1280, 1792, 2304, 1331, 1434, 1048576 + 52428, 1048576 + 104857,
        (1u64 << 53) + 1, (1u64 << 53) + 3, (1u64 << 54) + 2, (1u64 << 60) + 12345, u64::MAX, u64::MAX - 1024];
    let mut x: u64 = 0x9E37_79B9_7F4A_7C15;
    for _ in 0..2000 {
        x ^= x << 13;
        x ^= x >> 7;
        x ^= x << 17;
        samples.push(x >> (x % 60));
    }
    for b in samples {
        let expected = if b < 1024 {
            format!("{} B", b)
        } else if b < 1024 * 1024 {
            format!("{:.1} KB", b as f64 / 1024.0)
        } else {
            format!("{:.1} MB", b as f64 / 1024.0 / 1024.0)
        };
        assert_eq!(fmt_size(b), expected, "size {b}");
    }
}

#[test]
fn binary_detection() {
    assert!(is_binary(&[0x41, 0x00, 0x42], 1024));
    assert!(!is_binary(b"plain text", 1024));
    assert!(!is_binary(&[0xFF, 0xFE, 0x41, 0x00], 1024));
    assert!(!is_binary(&[0xFE, 0xFF, 0x00, 0x41], 1024));
    assert!(!is_binary(&[0x41, 0x42, 0x00], 2));
    assert!(!is_binary(&[], 1024));
}

#[test]
fn long_lines_are_cut() {
    assert_eq!(truncate("short"), "short");
    let long = "a".repeat(600);
    let cut = truncate(&long);
    assert_eq!(cut, format!("{}…", "a".repeat(512)));
    let wide = "中".repeat(300);
    assert_eq!(truncate(&wide), format!("{}…", wide));
    let exact = "b".repeat(512);
    assert_eq!(truncate(&exact), exact);
}

#[test]
fn byte_ranges_become_char_ranges() {
    let s = "a中b";
    assert_eq!(byte_ranges_to_char_ranges(s, &[(1, 4)]), vec![(1, 2)]);
    assert_eq!(byte_ranges_to_char_ranges(s, &[(0, 1), (4, 5)]), vec![(0, 1), (2, 3)]);
    assert_eq!(byte_ranges_to_char_ranges(s, &[]), Vec::<(usize, usize)>::new());
    assert_eq!(byte_ranges_to_char_ranges(s, &[(0, 5)]), vec![(0, 3)]);
}

#[test]
fn conversion_stops_at_a_range_it_cannot_reach() {
    let s = "ab";
    // an empty match at the end of the text starts at no character
    assert_eq!(byte_ranges_to_char_ranges(s, &[(1, 2), (2, 2)]), vec![(1, 2)]);
    // a range that starts before the previous one is not reached
    assert_eq!(byte_ranges_to_char_ranges(s, &[(1, 2), (0, 1)]), vec![(1, 2)]);
}

#[test]
fn invalid_pattern_is_an_error() {
    assert!(SearchPattern::new("(", false, false).is_err());
    assert!(SearchPattern::new("(", false, true).is_ok());
}

#[test]
fn fixed_strings_match_literally() {
    let re = match SearchPattern::new("a.b", false, true) {
        Ok(r) => r,
        Err(e) => panic!("{e}"),
    };
    assert_eq!(collect_matches("axb", &re).len(), 0);
    assert_eq!(collect_matches("a.b", &re).len(), 1);
}

#[test]
fn case_flag_controls_matching() {
    let ci = pattern("FOO");
    assert_eq!(collect_matches("foo", &ci).len(), 1);
    let cs = match SearchPattern::new("FOO", false, false) {
        Ok(r) => r,
        Err(e) => panic!("{e}"),
    };
    assert_eq!(collect_matches("foo", &cs).len(), 0);
}

#[test]
fn matches_carry_context_lines() {
    let re = pattern("foo");
    let ms = collect_matches("foo\nbar foo\r\n\nbaz", &re);
    assert_eq!(ms.len(), 2);
    assert_eq!(ms[0].line_num, 1);
    assert_eq!(ms[0].line, "foo");
    assert_eq!(ms[0].ranges, vec![(0, 3)]);
    assert!(ms[0].context_before.is_none());
    assert_eq!(ms[0].context_after.as_deref().map(|s| s.as_str()), Some("bar foo"));
    assert_eq!(ms[1].line_num, 2);
    assert_eq!(ms[1].line, "bar foo");
    assert_eq!(ms[1].ranges, vec![(4, 7)]);
    assert_eq!(ms[1].context_before.as_deref().map(|s| s.as_str()), Some("foo"));
    assert!(ms[1].context_after.is_none());
}

#[test]
fn all_matches_of_a_line_are_ranges() {
    let re = pattern("中");
    let ms = collect_matches("x中y中", &re);
    assert_eq!(ms.len(), 1);
    assert_eq!(ms[0].ranges, vec![(1, 2), (3, 4)]);
}

#[test]
fn very_long_lines_are_skipped() {
    let re = pattern("needle");
    let content = format!("{}needle\nneedle", "x".repeat(2100));
    let ms = collect_matches(&content, &re);
    assert_eq!(ms.len(), 1);
    assert_eq!(ms[0].line_num, 2);
    assert_eq!(ms[0].context_before.as_deref().map(|s| s.len()), Some(2106));
}

#[test]
fn decoding_by_marks_and_content() {
    assert_eq!(decode("héllo".as_bytes()),"héllo");
    assert_eq!(decode(&[0xEF, 0xBB, 0xBF, b'h', b'i']), "hi");
    assert_eq!(decode(&[0xEF, 0xBB, 0xBF, b'h', 0xFF]), "h\u{FFFD}");
    assert_eq!(decode(&[0xFF, 0xFE, b'h', 0, b'i', 0]), "hi");
    assert_eq!(decode(&[0xFE, 0xFF, 0, b'h', 0, b'i']), "hi");
    // "中文" in GBK
    assert_eq!(decode(&[0xD6, 0xD0, 0xCE, 0xC4]), "中文");
    // "你好" in GBK, on every platform
    assert_eq!(decode(&[0xC4, 0xE3, 0xBA, 0xC3]), "你好");
    // The Big5 bytes of "中文" decode cleanly as GBK too; the tie goes to GBK
    assert_eq!(decode(&[0xA4, 0xA4, 0xA4, 0xE5]), "いゅ");
}

#[test]
fn paths_use_forward_slashes_and_nfc() {
    let (display, win) = make_paths("dir\\sub/file.txt");
    assert_eq!(display, "dir/sub/file.txt");
    assert_eq!(win, format!("dir{}sub{}file.txt", std::path::MAIN_SEPARATOR, std::path::MAIN_SEPARATOR));
    let (composed, _) = make_paths("cafe\u{301}");
    assert_eq!(composed, "café");
    assert_eq!(nfc("e\u{301}"), "é");
    assert_eq!(nfc("plain"), "plain");
}

#[test]
fn file_names_are_matched() {
    let re = pattern("MAIN");
    let r = match match_filename("main.rs", "src/main.rs", &re, 2048) {
        Some(r) => r,
        None => panic!("no result"),
    };
    assert_eq!(r.path, "src/main.rs");
    assert_eq!(r.path_lc, "src/main.rs");
    assert_eq!(r.icon, "📝");
    assert_eq!(r.file_size, 2048);
    assert_eq!(r.file_size_str, "2.0 KB");
    assert_eq!(r.matches.len(), 1);
    assert_eq!(r.matches[0].line_num, 0);
    assert_eq!(r.matches[0].line, "main.rs");
    assert_eq!(r.matches[0].ranges, vec![(0, 4)]);
    assert!(match_filename("lib.rs", "src/lib.rs", &re, 10).is_none());
}

#[test]
fn file_name_ranges_count_characters() {
    let re = pattern("报告");
    let r = match match_filename("年度报告.pdf", "docs/年度报告.pdf", &re, 1) {
        Some(r) => r,
        None => panic!("no result"),
    };
    assert_eq!(r.matches[0].ranges, vec![(2, 4)]);
    assert_eq!(r.icon, "📕");
}

#[test]
fn file_name_of_a_path() {
    let re = pattern("notes");
    let r = match search_filename_with_size("home/me/Notes.TXT", &re, 100) {
        Some(r) => r,
        None => panic!("no result"),
    };
    assert_eq!(r.matches[0].line, "Notes.TXT");
    assert_eq!(r.path_lc, "home/me/notes.txt");
    assert!(search_filename_with_size("home/notes/x.txt", &re, 100).is_none());
}

#[test]
fn file_contents_are_searched() {
    let re = pattern("todo");
    let r = match search_contents("a/b.rs", b"fn main() {}\n// TODO: more\n", 26, &re) {
        Some(r) => r,
        None => panic!("no result"),
    };
    assert_eq!(r.path, "a/b.rs");
    assert_eq!(r.file_size_str, "26 B");
    assert_eq!(r.matches.len(), 1);
    assert_eq!(r.matches[0].line_num, 2);
    assert!(search_contents("a/b.bin", &[b't', b'o', b'd', b'o', 0], 5, &re).is_none());
    assert!(search_contents("a/c.rs", b"nothing here", 12, &re).is_none());
}

#[test]
fn size_limits_of_searched_files() {
    assert!(!searchable_size(0, 100));
    assert!(searchable_size(1, 100));
    assert!(searchable_size(100, 100));
    assert!(!searchable_size(101, 100));
}

#[test]
fn plain_file_names_are_found() {
    let re = pattern("plan");
    let r = match search_filename_with_size("docs/Plan.md", &re, 7) {
        Some(r) => r,
        None => panic!("no result"),
    };
    assert_eq!(r.matches[0].line, "Plan.md");
    assert_eq!(r.matches[0].ranges, vec![(0, 4)]);
    assert_eq!(r.file_size, 7);
    assert!(search_filename_with_size("Plan.md", &re, 7).is_some());
    assert!(search_filename_with_size("plan/Notes.md", &re, 7).is_none());
    assert!(search_filename_with_size("plan/..", &re, 7).is_none());
}

#[test]
fn names_under_absolute_folders_are_found() {
    let re = pattern("plan");
    let r = match search_filename_with_size("/home/u/proj.v2/Plan.md", &re, 9) {
        Some(r) => r,
        None => panic!("no result"),
    };
    assert_eq!(r.matches[0].line, "Plan.md");
    assert!(search_filename_with_size("/home/plan/notes.md", &re, 9).is_none());
}

#[test]
fn icons_ignore_case_and_folders() {
    assert_eq!(file_icon("A/B/Photo.PNG"), file_icon("photo.png"));
    assert_eq!(file_icon("archive.tar.d/README"), file_icon("README"));
    assert_eq!(file_icon("x.rs/readme"), "📄");
}
