use rust_seek::app::{
    compare_text, display_rows, highlight_segments, push_history, split_parent_name, truncate_display, App, Prefs,
    Row, RowKind, SearchMode, SearchMsg, StartOutcome,
};
use rust_seek::searcher::{Match, SearchResult};
use std::cmp::Ordering;
use std::sync::Arc;

fn result(path: &str, n_matches: usize) -> SearchResult {
    let mut matches = Vec::new();
    for i in 0..n_matches {
        matches.push(Match { line_num: i + 1, line: format!("line {i}"), ranges: vec![], context_before: None, context_after: None });
    }
    SearchResult {
        path: path.to_string(),
        path_lc: path.to_lowercase(),
        win_path: path.to_string(),
        icon: "📄",
        matches,
        file_size: 1,
        file_size_str: "1 B".to_string(),
    }
}

fn app() -> App {
    App::new(Prefs::default(), "C:\\work\\dir")
}

#[test]
fn history_moves_value_to_front() {
    let mut h = vec!["a".to_string(), "b".to_string(), "c".to_string()];
    push_history(&mut h, "b".to_string());
    assert_eq!(h, vec!["b", "a", "c"]);
    push_history(&mut h, "d".to_string());
    assert_eq!(h, vec!["d", "b", "a", "c"]);
}

#[test]
fn history_keeps_twenty_entries() {
    let mut h: Vec<String> = (0..20).map(|i| i.to_string()).collect();
    push_history(&mut h, "new".to_string());
    assert_eq!(h.len(), 20);
    assert_eq!(h[0], "new");
    assert_eq!(h[19], "18");
}

#[test]
fn context_lines_are_shortened() {
    assert_eq!(truncate_display("short"), "short");
    let long = "é".repeat(250);
    assert_eq!(truncate_display(&long), "é".repeat(200));
    let mid = "é".repeat(150);
    assert_eq!(truncate_display(&mid), mid);
}

#[test]
fn segments_cover_the_line() {
    assert_eq!(highlight_segments("hello world", &[(6, 11)]), vec![(0, 6, false), (6, 11, true)]);
    assert_eq!(highlight_segments("abcdef", &[(1, 2), (4, 5)]), vec![(0, 1, false), (1, 2, true), (2, 4, false), (4, 5, true), (5, 6, false)]);
    assert_eq!(highlight_segments("abc", &[]), vec![(0, 3, false)]);
    assert_eq!(highlight_segments("abc", &[(2, 10)]), vec![(0, 2, false), (2, 3, true)]);
    assert_eq!(highlight_segments("", &[]), vec![]);
}

#[test]
fn parent_and_name_of_paths() {
    assert_eq!(split_parent_name("a/b/c.txt"), ("a/b".to_string(), "c.txt".to_string()));
    assert_eq!(split_parent_name("c.txt"), ("".to_string(), "c.txt".to_string()));
}

#[test]
fn new_window_state() {
    let a = app();
    assert_eq!(a.search_path, "C:/work/dir");
    assert!(a.mode == SearchMode::Filename);
    assert!(a.ignore_case);
    assert_eq!(a.status, "就绪");
    let prefs = Prefs {
        path_history: vec![],
        pattern_history: vec![],
        last_path: "/home/x".to_string(),
        last_mode: Some(SearchMode::Text),
    };
    let b = App::new(prefs, "/ignored");
    assert_eq!(b.search_path, "/home/x");
    assert!(b.mode == SearchMode::Text);
}

#[test]
fn empty_pattern_starts_nothing() {
    let mut a = app();
    assert!(matches!(a.start_search(true), StartOutcome::Ignored));
    assert!(!a.searching);
}

#[test]
fn missing_folder_is_reported() {
    let mut a = app();
    a.pattern = "x".to_string();
    assert!(matches!(a.start_search(false), StartOutcome::PathMissing));
    assert_eq!(a.path_error.as_deref(), Some("路径不存在: C:/work/dir"));
}

#[test]
fn invalid_pattern_is_reported() {
    let mut a = app();
    a.pattern = "(".to_string();
    a.ignore_case = false;
    assert!(matches!(a.start_search(true), StartOutcome::InvalidPattern));
    assert!(a.status.starts_with("无效的正则: "));
    assert_eq!(a.prefs.pattern_history, vec!["("]);
    assert_eq!(a.prefs.path_history, vec!["C:/work/dir"]);
}

#[test]
fn search_runs_and_ends() {
    let mut a = app();
    a.pattern = "main".to_string();
    let task = match a.start_search(true) {
        StartOutcome::Started(t) => t,
        _ => panic!("not started"),
    };
    assert_eq!(task.root, "C:/work/dir");
    assert!(a.searching);
    assert_eq!(a.status, "搜索中…");
    assert_eq!(a.prefs.last_path, "C:/work/dir");
    assert!(!a.receive(SearchMsg::Result(result("z/b.rs", 1))));
    assert!(!a.receive(SearchMsg::Result(result("a/a.rs", 1))));
    a.finish_drain(true, false);
    assert_eq!(a.status, "搜索中… 已找到 2 个文件");
    assert!(a.receive(SearchMsg::Done(12)));
    assert_eq!(a.status, "找到 2 个文件 (12ms)");
    assert!(!a.searching);
    assert!(a.rx.is_none());
    assert_eq!(a.results[0].path, "a/a.rs");
    assert_eq!(a.results[1].path, "z/b.rs");
    drop(task);
}

#[test]
fn text_mode_status() {
    let mut a = app();
    a.set_mode(SearchMode::Text);
    a.pattern = "x".to_string();
    let _task = a.start_search(true);
    a.receive(SearchMsg::Result(result("f1", 3)));
    a.receive(SearchMsg::Result(result("f2", 2)));
    a.finish_drain(true, false);
    assert_eq!(a.status, "搜索中… 5 处匹配 / 2 个文件");
    a.receive(SearchMsg::Done(7));
    assert_eq!(a.status, "5 处匹配，共 2 个文件 (7ms)");
    assert_eq!(a.total_matches, 5);
}

#[test]
fn search_without_results() {
    let mut a = app();
    a.pattern = "x".to_string();
    let _task = a.start_search(true);
    a.receive(SearchMsg::Done(3));
    assert_eq!(a.status, "未找到结果 (3ms)");
}

#[test]
fn results_are_capped() {
    let mut a = app();
    a.pattern = "x".to_string();
    let task = match a.start_search(true) {
        StartOutcome::Started(t) => t,
        _ => panic!("not started"),
    };
    for i in 0..2001 {
        a.receive(SearchMsg::Result(result(&format!("f{i:05}"), 1)));
    }
    assert_eq!(a.results.len(), 2000);
    assert!(a.result_capped);
    assert!(task.cancel.load(std::sync::atomic::Ordering::Relaxed));
    a.receive(SearchMsg::Done(1));
    assert_eq!(a.status, "找到 2000+ 个文件（已截断）(1ms)");
}

#[test]
fn cancelling_raises_the_stop_flag() {
    let mut a = app();
    a.pattern = "x".to_string();
    let task = match a.start_search(true) {
        StartOutcome::Started(t) => t,
        _ => panic!("not started"),
    };
    a.cancel_by_user();
    assert!(task.cancel.load(std::sync::atomic::Ordering::Relaxed));
    assert!(!a.searching);
    assert_eq!(a.status, "已取消");
}

#[test]
fn titles_follow_state() {
    let mut a = app();
    assert_eq!(a.take_title_change().as_deref(), Some("Rust Seek"));
    assert!(a.take_title_change().is_none());
    a.searching = true;
    assert_eq!(a.take_title_change().as_deref(), Some("Rust Seek — 搜索中…"));
    a.searching = false;
    a.results.push(result("x", 1));
    a.status = "done".to_string();
    assert_eq!(a.window_title(), "Rust Seek — done");
}

#[test]
fn arrow_keys_walk_the_history() {
    let mut a = app();
    a.prefs.pattern_history = vec!["new".to_string(), "old".to_string()];
    a.pattern = "typed".to_string();
    a.navigate_history(true, false);
    assert_eq!(a.pattern, "new");
    a.navigate_history(true, false);
    assert_eq!(a.pattern, "old");
    a.navigate_history(true, false);
    assert_eq!(a.pattern, "old");
    assert_eq!(a.pat_history_idx, Some(1));
    a.navigate_history(false, true);
    assert_eq!(a.pattern, "new");
    a.navigate_history(false, true);
    assert_eq!(a.pat_history_idx, None);
    assert_eq!(a.pattern, "new");
}

#[test]
fn regex_errors_are_checked_on_change() {
    let mut a = app();
    a.pattern = "(".to_string();
    a.refresh_regex_error();
    assert!(a.regex_error.is_some());
    a.fixed_string = true;
    a.refresh_regex_error();
    assert!(a.regex_error.is_none());
    a.pattern = String::new();
    a.fixed_string = false;
    a.refresh_regex_error();
    assert!(a.regex_error.is_none());
}

#[test]
fn filter_matches_lowercased_paths() {
    let mut a = app();
    let r = result("Src/Main.RS", 1);
    a.filter = "MAIN".to_string();
    a.refresh_filter();
    assert_eq!(a.filter_lc, "main");
    assert!(a.is_shown(&r));
    a.filter = "lib".to_string();
    a.refresh_filter();
    assert!(!a.is_shown(&r));
    a.clear_filter();
    assert!(a.is_shown(&r));
}

#[test]
fn folding_and_expanding() {
    let mut a = app();
    a.set_mode(SearchMode::Text);
    let r = result("p", 7);
    assert_eq!(a.match_display(&r), (false, 5, true));
    a.expand("p".to_string());
    assert_eq!(a.match_display(&r), (false, 7, false));
    a.toggle_collapse("p".to_string());
    assert_eq!(a.match_display(&r), (true, 0, false));
    a.toggle_collapse("p".to_string());
    assert_eq!(a.match_display(&r), (false, 7, false));
    a.results = vec![result("p", 1), result("q", 1)];
    a.collapse_all();
    assert_eq!(a.match_display(&result("q", 3)), (true, 0, false));
    a.expand_all();
    assert_eq!(a.match_display(&result("q", 3)), (false, 3, false));
}

#[test]
fn filename_mode_shows_no_match_rows() {
    let a = app();
    assert_eq!(a.match_display(&result("p", 7)), (false, 0, false));
}

#[test]
fn all_paths_one_per_line() {
    let mut a = app();
    assert_eq!(a.all_paths_text(), "");
    a.results = vec![result("a", 0), result("b/c", 0)];
    assert_eq!(a.all_paths_text(), "a\nb/c");
}

#[test]
fn shared_context_lines_show_once() {
    let m1 = Match {
        line_num: 3,
        line: "x".to_string(),
        ranges: vec![],
        context_before: Some(Arc::new("two".to_string())),
        context_after: Some(Arc::new("four".to_string())),
    };
    let m2 = Match {
        line_num: 5,
        line: "y".to_string(),
        ranges: vec![],
        context_before: Some(Arc::new("four".to_string())),
        context_after: None,
    };
    let rows = display_rows(&[m1, m2], 2);
    assert_eq!(
        rows,
        vec![
            Row { kind: RowKind::Before, line_num: 2, index: 0 },
            Row { kind: RowKind::Hit, line_num: 3, index: 0 },
            Row { kind: RowKind::After, line_num: 4, index: 0 },
            Row { kind: RowKind::Hit, line_num: 5, index: 1 },
        ]
    );
}

#[test]
fn texts_compare_by_code_point() {
    assert_eq!(compare_text(&"a".to_string(), &"b".to_string()), Ordering::Less);
    assert_eq!(compare_text(&"ab".to_string(), &"a".to_string()), Ordering::Greater);
    assert_eq!(compare_text(&"中".to_string(), &"中".to_string()), Ordering::Equal);
    assert_eq!(compare_text(&"Z".to_string(), &"a".to_string()), Ordering::Less);
}

#[test]
fn last_results_and_end_in_one_frame() {
    let mut a = app();
    a.set_mode(SearchMode::Text);
    a.pattern = "x".to_string();
    let _task = a.start_search(true);
    let got_a = a.receive(SearchMsg::Result(result("b", 2)));
    let got_b = a.receive(SearchMsg::Result(result("a", 1)));
    let done = a.receive(SearchMsg::Done(5));
    assert!(!got_a && !got_b && done);
    a.finish_drain(true, done);
    assert_eq!(a.total_matches, 3);
    assert!(a.rx.is_none() && a.cancel.is_none() && !a.searching);
    assert_eq!(a.status, "3 处匹配，共 2 个文件 (5ms)");
    assert_eq!(a.results[0].path, "a");
}

#[test]
fn missing_folder_keeps_the_running_search() {
    let mut a = app();
    a.pattern = "x".to_string();
    let _task = a.start_search(true);
    assert!(a.rx.is_some());
    a.search_path = "nowhere".to_string();
    assert!(matches!(a.start_search(false), StartOutcome::PathMissing));
    assert!(a.rx.is_some() && a.cancel.is_some() && a.searching);
    assert_eq!(a.status, "搜索中…");
}

#[test]
fn theme_switches_back_and_forth() {
    let mut a = app();
    assert!(a.dark_theme);
    assert_eq!(a.theme_button(), "☀️");
    a.toggle_theme();
    assert!(!a.dark_theme);
    assert_eq!(a.theme_button(), "🌙");
    a.toggle_theme();
    assert!(a.dark_theme);
}

#[test]
fn collapse_all_folds_exactly_the_results() {
    let mut a = app();
    a.results = vec![result("p/a", 1), result("p/b", 1)];
    a.collapsed = vec!["old".to_string()];
    a.collapse_all();
    let mut got = a.collapsed.clone();
    got.sort();
    assert_eq!(got, vec!["old", "p/a", "p/b"]);
}
