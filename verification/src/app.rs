//! State and decisions of the search window: search history, starting and
//! cancelling searches, collecting results, status and title texts,
//! filtering, folding and highlighting. Drawing is left to the caller.
use vstd::prelude::*;

use std::sync::atomic::{AtomicBool, Ordering};
use std::sync::mpsc::{Receiver, Sender};
use std::sync::Arc;

use crate::matcher::{pattern_source, regex_compiles, regex_error_text, SearchPattern};
use crate::searcher::{lowercase, lowercase_text, Match, MatchView, SearchResult};
use crate::text::{lemma_split_concat, lemma_split_single, split_on, chars_of, decimal, push_char, push_decimal, replace_char_text, string_of};

verus! {

/// Number of entries each history keeps.
pub const MAX_HISTORY: usize = 20;

/// Matches of a file shown before it is expanded.
pub const COLLAPSE_THRESHOLD: usize = 5;

/// Results kept per search; more stop the search.
pub const MAX_RESULTS: usize = 2000;

/// `h` without the entries equal to `v`, in order.
pub open spec fn without_entry(h: Seq<Seq<char>>, v: Seq<char>) -> Seq<Seq<char>>
    decreases h.len(),
{
    if h.len() == 0 {
        seq![]
    } else if h.last() == v {
        without_entry(h.drop_last(), v)
    } else {
        without_entry(h.drop_last(), v).push(h.last())
    }
}

/// History `h` after `v` is used: `v` first, then the other entries in
/// their order, at most 20 in all.
pub open spec fn history_after(h: Seq<Seq<char>>, v: Seq<char>) -> Seq<Seq<char>> {
    let all = seq![v] + without_entry(h, v);
    if all.len() > MAX_HISTORY {
        all.take(MAX_HISTORY as int)
    } else {
        all
    }
}

pub open spec fn texts(v: Seq<String>) -> Seq<Seq<char>> {
    v.map_values(|s: String| s@)
}

/// Moves `value` to the front of `history`, dropping other copies of it and
/// the entries past the twentieth.
pub fn push_history(history: &mut Vec<String>, value: String)
    ensures
        texts(final(history)@) == history_after(texts(old(history)@), value@),
{
    let ghost h = texts(history@);
    let mut kept: Vec<String> = Vec::new();
    let mut i: usize = 0;
    while i < history.len()
        invariant
            i <= history@.len(),
            h == texts(history@),
            texts(kept@) == without_entry(h.take(i as int), value@),
        decreases history@.len() - i,
    {
        proof {
            assert(h.take(i + 1).drop_last() =~= h.take(i as int));
            assert(h.take(i + 1).last() == history@[i as int]@);
        }
        if !(history[i] == value) {
            kept.push(history[i].clone());
        }
        assert(texts(kept@) =~= without_entry(h.take(i + 1), value@));
        i += 1;
    }
    assert(h.take(history@.len() as int) =~= h);
    let mut out: Vec<String> = Vec::new();
    out.push(value);
    out.append(&mut kept);
    out.truncate(MAX_HISTORY);
    assert(texts(out@) =~= history_after(h, out@[0]@));
    *history = out;
}

/// At most the first 200 characters of `s`.
pub open spec fn display_prefix(s: Seq<char>) -> Seq<char> {
    if s.len() <= 200 {
        s
    } else {
        s.take(200)
    }
}

/// Shortens a context line to at most 200 characters for display.
pub fn truncate_display(s: &str) -> (r: &str)
    ensures
        r@ == display_prefix(s@),
{
    if crate::text::str_byte_len(s) <= 200 {
        proof {
            crate::text::lemma_len_le_byte_len(s@);
        }
        return s;
    }
    let n = s.unicode_len();
    if n <= 200 {
        s
    } else {
        s.substring_char(0, 200)
    }
}


/// Pieces of a line of `total` characters, in order, for highlighting the
/// character ranges `ranges` (clamped to the line) from character `cursor`
/// on: `(start, end, highlighted)`.
pub open spec fn segments_from(total: nat, ranges: Seq<(usize, usize)>, cursor: nat) -> Seq<(usize, usize, bool)>
    decreases ranges.len(),
{
    if ranges.len() == 0 {
        if cursor < total {
            seq![(cursor as usize, total as usize, false)]
        } else {
            seq![]
        }
    } else {
        let s: nat = if ranges[0].0 < total { ranges[0].0 as nat } else { total };
        let e: nat = if ranges[0].1 < total { ranges[0].1 as nat } else { total };
        (if s > cursor {
            seq![(cursor as usize, s as usize, false)]
        } else {
            seq![]
        }) + (if s < e {
            seq![(s as usize, e as usize, true)]
        } else {
            seq![]
        }) + segments_from(total, ranges.drop_first(), e)
    }
}

/// Splits `line` into plain and highlighted pieces by the character ranges
/// of its matches.
pub fn highlight_segments(line: &str, ranges: &[(usize, usize)]) -> (r: Vec<(usize, usize, bool)>)
    ensures
        r@ == segments_from(line@.len(), ranges@, 0),
{
    let total = line.unicode_len();
    let mut out: Vec<(usize, usize, bool)> = Vec::new();
    let mut cursor: usize = 0;
    let mut i: usize = 0;
    assert(ranges@.skip(0) =~= ranges@);
    while i < ranges.len()
        invariant
            total == line@.len(),
            i <= ranges@.len(),
            cursor <= total,
            segments_from(total as nat, ranges@, 0) == out@ + segments_from(total as nat, ranges@.skip(i as int), cursor as nat),
        decreases ranges@.len() - i,
    {
        let (a, b) = ranges[i];
        let ghost rest = ranges@.skip(i as int);
        assert(rest[0] == (a, b));
        assert(rest.drop_first() =~= ranges@.skip(i + 1));
        let start = if a < total { a } else { total };
        let end = if b < total { b } else { total };
        let ghost before = out@;
        if start > cursor {
            out.push((cursor, start, false));
        }
        if start < end {
            out.push((start, end, true));
        }
        proof {
            let p1: Seq<(usize, usize, bool)> = if start > cursor { seq![(cursor, start, false)] } else { seq![] };
            let p2: Seq<(usize, usize, bool)> = if start < end { seq![(start, end, true)] } else { seq![] };
            assert(out@ =~= before + p1 + p2);
            assert(segments_from(total as nat, rest, cursor as nat) == p1 + p2 + segments_from(total as nat, rest.drop_first(), end as nat));
            assert(before + (p1 + p2 + segments_from(total as nat, rest.drop_first(), end as nat)) =~= out@ + segments_from(total as nat, rest.drop_first(), end as nat));
        }
        cursor = end;
        i += 1;
    }
    let ghost before = out@;
    if cursor < total {
        out.push((cursor, total, false));
    }
    assert(ranges@.skip(i as int).len() == 0);
    assert(out@ =~= before + segments_from(total as nat, ranges@.skip(i as int), cursor as nat));
    out
}

/// The folder part of a `/`-separated path: what precedes its last `/`, or
/// nothing.
pub open spec fn parent_part(path: Seq<char>) -> Seq<char> {
    match crate::text::last_index_of(path, '/') {
        Some(i) => path.take(i),
        None => Seq::empty(),
    }
}

/// The file-name part of a `/`-separated path: what follows its last `/`,
/// or the whole path.
pub open spec fn name_part(path: Seq<char>) -> Seq<char> {
    match crate::text::last_index_of(path, '/') {
        Some(i) => path.skip(i + 1),
        None => path,
    }
}

/// Splits a displayed path into its folder and its file name.
pub fn split_parent_name(path: &str) -> (r: (String, String))
    ensures
        r.0@ == parent_part(path@),
        r.1@ == name_part(path@),
{
    let cs = chars_of(path);
    proof {
        crate::text::lemma_last_index_of(cs@, '/');
    }
    match crate::text::rfind_char(cs.as_slice(), '/') {
        Some(i) => {
            let n = cs.len();
            assert(i < n);
            let parent = string_of(cs.as_slice(), 0, i);
            let name = string_of(cs.as_slice(), i + 1, n);
            assert(cs@.subrange(0, i as int) =~= cs@.take(i as int));
            assert(cs@.subrange(i + 1, cs@.len() as int) =~= cs@.skip(i + 1));
            (parent, name)
        },
        None => {
            let name = string_of(cs.as_slice(), 0, cs.len());
            assert(cs@.subrange(0, cs@.len() as int) =~= cs@);
            (String::new(), name)
        },
    }
}


#[verifier::external_type_specification]
#[verifier::external_body]
#[verifier::reject_recursive_types(T)]
pub struct ExReceiver<T>(std::sync::mpsc::Receiver<T>);

#[verifier::external_type_specification]
#[verifier::external_body]
#[verifier::reject_recursive_types(T)]
pub struct ExSender<T>(std::sync::mpsc::Sender<T>);

/// `std::sync::mpsc::channel`: a new channel for search messages. Nothing
/// is claimed of the pair: that the sender feeds this very receiver is left
/// unsaid, as two channels are told apart by nothing but their identity.
#[verifier::external_body]
fn new_channel() -> (r: (Sender<SearchMsg>, Receiver<SearchMsg>)) {
    std::sync::mpsc::channel()
}

/// `Arc::clone` of the stop flag: std documents that the clone points to the
/// same allocation, so the clone is the same flag.
#[verifier::external_body]
fn share_flag(flag: &Arc<AtomicBool>) -> (r: Arc<AtomicBool>)
    ensures
        r == *flag,
{
    Arc::clone(flag)
}

/// What to search for.
#[derive(Clone, Copy, PartialEq, Eq, Debug, Structural)]
pub enum SearchMode {
    Text,
    Filename,
}

/// A message from a running search.
pub enum SearchMsg {
    /// A file with matches.
    Result(SearchResult),
    /// The search ended after the given number of milliseconds.
    Done(u128),
}

/// Preferences kept between runs.
pub struct Prefs {
    pub path_history: Vec<String>,
    pub pattern_history: Vec<String>,
    pub last_path: String,
    pub last_mode: Option<SearchMode>,
}

impl Default for Prefs {
    fn default() -> (r: Prefs)
        ensures
            r.path_history@.len() == 0,
            r.pattern_history@.len() == 0,
            r.last_path@ == Seq::<char>::empty(),
            r.last_mode is None,
    {
        Prefs { path_history: Vec::new(), pattern_history: Vec::new(), last_path: String::new(), last_mode: None }
    }
}

/// A search to run: the folder, the mode, the compiled pattern, where to
/// send results, and the flag that stops the search.
pub struct SearchTask {
    pub root: String,
    pub mode: SearchMode,
    pub pattern: SearchPattern,
    pub sender: Sender<SearchMsg>,
    pub cancel: Arc<AtomicBool>,
}

/// What a request to start a search came to.
pub enum StartOutcome {
    /// The pattern is empty; nothing changed.
    Ignored,
    /// The folder does not exist; the path error says so.
    PathMissing,
    /// The pattern does not compile; the status says why. The preferences
    /// changed and are to be saved.
    InvalidPattern,
    /// The search is to run. The preferences changed and are to be saved.
    Started(SearchTask),
}

/// The state of the search window.
pub struct App {
    pub pattern: String,
    pub search_path: String,
    pub ignore_case: bool,
    pub fixed_string: bool,
    pub mode: SearchMode,
    pub results: Vec<SearchResult>,
    /// Matches over all results, set when a search ends.
    pub total_matches: usize,
    /// Whether results were dropped because there were too many.
    pub result_capped: bool,
    /// Paths of the results whose matches are folded away.
    pub collapsed: Vec<String>,
    /// Paths of the results whose matches are all shown.
    pub expanded: Vec<String>,
    pub status: String,
    pub live_count: usize,
    pub live_matches: usize,
    pub path_error: Option<String>,
    pub regex_error: Option<String>,
    pub last_pat: String,
    pub last_ic: bool,
    pub last_fs: bool,
    pub filter: String,
    pub filter_lc: String,
    pub pat_history_idx: Option<usize>,
    pub searching: bool,
    pub rx: Option<Receiver<SearchMsg>>,
    pub cancel: Option<Arc<AtomicBool>>,
    pub prefs: Prefs,
    pub needs_focus: bool,
    pub last_title: String,
    /// Whether the dark theme is shown; else the light one.
    pub dark_theme: bool,
}

/// Asks a running search to stop.
fn raise_stop_flag(flag: &AtomicBool) {
    flag.store(true, Ordering::Relaxed);
}

/// Status text when the window is idle.
pub open spec fn ready_text() -> Seq<char> {
    "就绪"@
}

/// Status text when the user cancels a search.
pub open spec fn cancelled_text() -> Seq<char> {
    "已取消"@
}

/// Status text while a search starts.
pub open spec fn searching_text() -> Seq<char> {
    "搜索中…"@
}

/// The error shown for a search folder that does not exist.
pub open spec fn path_missing_text(path: Seq<char>) -> Seq<char> {
    "路径不存在: "@ + path
}

/// The status shown for a pattern that does not compile.
pub open spec fn invalid_pattern_text(err: Seq<char>) -> Seq<char> {
    "无效的正则: "@ + err
}

impl App {
    /// A window that starts from the saved preferences: in the last folder
    /// searched (else in `cwd`, with forward slashes), in the last mode (else
    /// by file name), ignoring case, idle.
    pub fn new(prefs: Prefs, cwd: &str) -> (r: App)
        ensures
            r.search_path@ == (if prefs.last_path@.len() == 0 {
                replace_char_text(cwd@, '\\', '/')
            } else {
                prefs.last_path@
            }),
            r.mode == (match prefs.last_mode {
                Some(m) => m,
                None => SearchMode::Filename,
            }),
            r.pattern@.len() == 0,
            r.ignore_case,
            !r.fixed_string,
            r.results@.len() == 0,
            r.total_matches == 0,
            !r.result_capped,
            r.collapsed@.len() == 0,
            r.expanded@.len() == 0,
            r.status@ == ready_text(),
            r.live_count == 0,
            r.live_matches == 0,
            r.path_error is None,
            r.regex_error is None,
            r.last_pat@.len() == 0,
            !r.last_ic,
            !r.last_fs,
            r.filter@.len() == 0,
            r.filter_lc@.len() == 0,
            r.pat_history_idx is None,
            !r.searching,
            r.rx is None,
            r.cancel is None,
            r.prefs == prefs,
            r.needs_focus,
            r.last_title@.len() == 0,
            r.dark_theme,
    {
        let search_path = if prefs.last_path.as_str().is_empty() {
            crate::text::replaced_text(cwd, '\\', '/')
        } else {
            prefs.last_path.clone()
        };
        let mode = match prefs.last_mode {
            Some(m) => m,
            None => SearchMode::Filename,
        };
        App {
            pattern: String::new(),
            search_path,
            ignore_case: true,
            fixed_string: false,
            mode,
            results: Vec::new(),
            total_matches: 0,
            result_capped: false,
            collapsed: Vec::new(),
            expanded: Vec::new(),
            status: "就绪".to_owned(),
            live_count: 0,
            live_matches: 0,
            path_error: None,
            regex_error: None,
            last_pat: String::new(),
            last_ic: false,
            last_fs: false,
            filter: String::new(),
            filter_lc: String::new(),
            pat_history_idx: None,
            searching: false,
            rx: None,
            cancel: None,
            prefs,
            needs_focus: true,
            last_title: String::new(),
            dark_theme: true,
        }
    }

    /// Switches between the dark and the light theme (the ☀️/🌙 button or
    /// the `T` key).
    pub fn toggle_theme(&mut self)
        ensures
            *final(self) == (App { dark_theme: !old(self).dark_theme, ..*old(self) }),
    {
        self.dark_theme = !self.dark_theme;
    }

    /// The label of the theme button: the sun while the dark theme is shown
    /// (it switches to light), else the moon.
    pub fn theme_button(&self) -> (r: &'static str)
        ensures
            r@ == (if self.dark_theme { "☀️"@ } else { "🌙"@ }),
    {
        if self.dark_theme {
            "☀️"
        } else {
            "🌙"
        }
    }

    /// Stops the running search, if any: raises its stop flag and drops its
    /// channel.
    pub fn cancel_search(&mut self)
        ensures
            *final(self) == (App { cancel: None, rx: None, searching: false, ..*old(self) }),
    {
        if let Some(c) = self.cancel.take() {
            raise_stop_flag(&c);
        }
        self.rx = None;
        self.searching = false;
    }

    /// Sets the folder to search from a dropped or picked path, with forward
    /// slashes, and clears the path error.
    pub fn set_search_path(&mut self, raw: &str)
        ensures
            final(self).search_path@ == replace_char_text(raw@, '\\', '/'),
            *final(self) == (App { search_path: final(self).search_path, path_error: None, ..*old(self) }),
    {
        self.search_path = crate::text::replaced_text(raw, '\\', '/');
        self.path_error = None;
    }

    /// Cancels the running search at the user's request.
    pub fn cancel_by_user(&mut self)
        ensures
            final(self).cancel is None,
            final(self).rx is None,
            !final(self).searching,
            final(self).status@ == cancelled_text(),
            *final(self) == (App { cancel: None, rx: None, searching: false, status: final(self).status, ..*old(self) }),
    {
        self.cancel_search();
        self.status = "已取消".to_owned();
    }

    /// Switches the search mode; a change clears the results, stops the
    /// running search and resets the status.
    pub fn set_mode(&mut self, mode: SearchMode)
        ensures
            final(self).mode == mode,
            mode == old(self).mode ==> *final(self) == *old(self),
            mode != old(self).mode ==> {
                &&& final(self).results@.len() == 0
                &&& final(self).cancel is None
                &&& final(self).rx is None
                &&& !final(self).searching
                &&& final(self).status@ == ready_text()
                &&& *final(self) == (App {
                    mode,
                    results: final(self).results,
                    cancel: None,
                    rx: None,
                    searching: false,
                    status: final(self).status,
                    ..*old(self)
                })
            },
    {
        if mode != self.mode {
            self.mode = mode;
            self.results.clear();
            self.cancel_search();
            self.status = "就绪".to_owned();
        }
    }

    /// The window title: busy while searching, the status once there are
    /// results, else the program name.
    pub open spec fn title_text(&self) -> Seq<char> {
        if self.searching {
            "Rust Seek — 搜索中…"@
        } else if self.results@.len() > 0 {
            "Rust Seek — "@ + self.status@
        } else {
            "Rust Seek"@
        }
    }

    /// The window title for the current state.
    pub fn window_title(&self) -> (r: String)
        ensures
            r@ == self.title_text(),
    {
        if self.searching {
            "Rust Seek — 搜索中…".to_owned()
        } else if self.results.len() > 0 {
            let mut t = "Rust Seek — ".to_owned();
            t.append(self.status.as_str());
            t
        } else {
            "Rust Seek".to_owned()
        }
    }

    /// The new window title when it differs from the one last sent, which
    /// it then replaces.
    pub fn take_title_change(&mut self) -> (r: Option<String>)
        ensures
            old(self).title_text() != old(self).last_title@ ==> (r matches Some(t) && t@ == old(self).title_text()
                && final(self).last_title@ == old(self).title_text()),
            old(self).title_text() == old(self).last_title@ ==> (r is None && final(self).last_title == old(self).last_title),
            *final(self) == (App { last_title: final(self).last_title, ..*old(self) }),
    {
        let title = self.window_title();
        if !(title == self.last_title) {
            self.last_title = title.clone();
            Some(title)
        } else {
            None
        }
    }

    /// Checks the pattern again when it or the flags changed since the last
    /// check: an empty pattern has no error, else the error is the one the
    /// pattern compiles to, if any.
    pub fn refresh_regex_error(&mut self)
        ensures
            ({
                let changed = old(self).pattern@ != old(self).last_pat@ || old(self).ignore_case != old(self).last_ic
                    || old(self).fixed_string != old(self).last_fs;
                let src = pattern_source(old(self).pattern@, old(self).fixed_string);
                &&& changed ==> {
                    &&& final(self).last_pat@ == old(self).pattern@
                    &&& final(self).last_ic == old(self).ignore_case
                    &&& final(self).last_fs == old(self).fixed_string
                    &&& final(self).regex_error matches Some(e) ==> e@ == regex_error_text(src, old(self).ignore_case)
                    &&& (final(self).regex_error is None <==> (old(self).pattern@.len() == 0 || regex_compiles(src, old(self).ignore_case)))
                    &&& *final(self) == (App {
                        last_pat: final(self).last_pat,
                        last_ic: final(self).last_ic,
                        last_fs: final(self).last_fs,
                        regex_error: final(self).regex_error,
                        ..*old(self)
                    })
                }
                &&& !changed ==> *final(self) == *old(self)
            }),
    {
        if !(self.pattern == self.last_pat) || self.ignore_case != self.last_ic || self.fixed_string != self.last_fs {
            self.last_pat = self.pattern.clone();
            self.last_ic = self.ignore_case;
            self.last_fs = self.fixed_string;
            self.regex_error = if self.pattern.as_str().is_empty() {
                None
            } else {
                match SearchPattern::new(self.pattern.as_str(), self.ignore_case, self.fixed_string) {
                    Ok(_) => None,
                    Err(e) => Some(e),
                }
            };
        }
    }

    /// Steps through the pattern history with the arrow keys: up goes to
    /// older entries (stopping at the oldest), down to newer ones and then
    /// back to the typed pattern. A selected entry replaces the pattern.
    pub fn navigate_history(&mut self, up: bool, down: bool)
        ensures
            ({
                let len = old(self).prefs.pattern_history@.len();
                let idx = history_step(old(self).pat_history_idx, up, len);
                if (up || down) && len > 0 {
                    &&& final(self).pat_history_idx == idx
                    &&& final(self).pattern@ == (match idx {
                        Some(i) => if i < len {
                            old(self).prefs.pattern_history@[i as int]@
                        } else {
                            old(self).pattern@
                        },
                        None => old(self).pattern@,
                    })
                    &&& *final(self) == (App { pat_history_idx: idx, pattern: final(self).pattern, ..*old(self) })
                } else {
                    *final(self) == *old(self)
                }
            }),
    {
        if !(up || down) || self.prefs.pattern_history.len() == 0 {
            return;
        }
        let len = self.prefs.pattern_history.len();
        let idx = match self.pat_history_idx {
            None => if up {
                Some(0)
            } else {
                None
            },
            Some(i) => if up {
                Some(if i < len - 1 { i + 1 } else { len - 1 })
            } else if i == 0 {
                None
            } else {
                Some(i - 1)
            },
        };
        self.pat_history_idx = idx;
        if let Some(i) = idx {
            if i < len {
                self.pattern = self.prefs.pattern_history[i].clone();
            }
        }
    }

    /// Takes a pattern picked from the history list.
    pub fn choose_pattern(&mut self, pattern: String)
        ensures
            *final(self) == (App { pattern, pat_history_idx: None, ..*old(self) }),
    {
        self.pattern = pattern;
        self.pat_history_idx = None;
    }

    /// Starts a search for the pattern in the folder, which exists exactly
    /// when `path_exists`. An empty pattern does nothing. A missing folder
    /// sets the path error. Otherwise the running search stops, the folder
    /// and the pattern move to the front of their histories, and the
    /// pattern is compiled (escaped first where it is a fixed string); a
    /// pattern that does not compile sets the status, else the results and
    /// counters are cleared and the search is handed back to be run.
    pub fn start_search(&mut self, path_exists: bool) -> (r: StartOutcome)
        ensures
            old(self).pattern@.len() == 0 ==> (r is Ignored && *final(self) == *old(self)),
            old(self).pattern@.len() > 0 && !path_exists ==> {
                &&& r is PathMissing
                &&& final(self).path_error matches Some(e) && e@ == path_missing_text(old(self).search_path@)
                &&& *final(self) == (App { path_error: final(self).path_error, ..*old(self) })
            },
            old(self).pattern@.len() > 0 && path_exists ==> {
                let src = pattern_source(old(self).pattern@, old(self).fixed_string);
                &&& final(self).path_error is None
                &&& texts(final(self).prefs.path_history@) == history_after(texts(old(self).prefs.path_history@), old(self).search_path@)
                &&& texts(final(self).prefs.pattern_history@) == history_after(texts(old(self).prefs.pattern_history@), old(self).pattern@)
                &&& final(self).prefs.last_path@ == old(self).search_path@
                &&& final(self).prefs.last_mode == Some(old(self).mode)
                &&& !regex_compiles(src, old(self).ignore_case) ==> {
                    &&& r is InvalidPattern
                    &&& final(self).status@ == invalid_pattern_text(regex_error_text(src, old(self).ignore_case))
                    &&& *final(self) == (App {
                        path_error: None,
                        cancel: None,
                        rx: None,
                        searching: false,
                        prefs: final(self).prefs,
                        status: final(self).status,
                        ..*old(self)
                    })
                }
                &&& regex_compiles(src, old(self).ignore_case) ==> {
                    &&& r matches StartOutcome::Started(task) && {
                        &&& task.root == old(self).search_path
                        &&& task.mode == old(self).mode
                        &&& task.pattern.source() == src
                        &&& task.pattern.ignores_case() == old(self).ignore_case
                        &&& final(self).cancel == Some(task.cancel)
                    }
                    &&& final(self).results@.len() == 0
                    &&& final(self).collapsed@.len() == 0
                    &&& final(self).expanded@.len() == 0
                    &&& final(self).filter@.len() == 0
                    &&& final(self).filter_lc@.len() == 0
                    &&& final(self).status@ == searching_text()
                    &&& final(self).tallied()
                    &&& final(self).rx is Some
                    &&& final(self).cancel is Some
                    &&& *final(self) == (App {
                        path_error: None,
                        prefs: final(self).prefs,
                        results: final(self).results,
                        total_matches: 0,
                        result_capped: false,
                        collapsed: final(self).collapsed,
                        expanded: final(self).expanded,
                        filter: final(self).filter,
                        filter_lc: final(self).filter_lc,
                        live_count: 0,
                        live_matches: 0,
                        searching: true,
                        status: final(self).status,
                        rx: final(self).rx,
                        cancel: final(self).cancel,
                        ..*old(self)
                    })
                }
            },
    {
        if self.pattern.as_str().is_empty() {
            return StartOutcome::Ignored;
        }
        if !path_exists {
            let mut e = "路径不存在: ".to_owned();
            e.append(self.search_path.as_str());
            self.path_error = Some(e);
            return StartOutcome::PathMissing;
        }
        self.path_error = None;
        self.cancel_search();
        push_history(&mut self.prefs.path_history, self.search_path.clone());
        push_history(&mut self.prefs.pattern_history, self.pattern.clone());
        self.prefs.last_path = self.search_path.clone();
        self.prefs.last_mode = Some(self.mode);
        let re = match SearchPattern::new(self.pattern.as_str(), self.ignore_case, self.fixed_string) {
            Ok(r) => r,
            Err(e) => {
                let mut st = "无效的正则: ".to_owned();
                st.append(e.as_str());
                self.status = st;
                return StartOutcome::InvalidPattern;
            },
        };
        self.results.clear();
        self.total_matches = 0;
        self.result_capped = false;
        self.collapsed.clear();
        self.expanded.clear();
        self.filter = String::new();
        self.filter_lc = String::new();
        self.live_count = 0;
        self.live_matches = 0;
        self.searching = true;
        self.status = "搜索中…".to_owned();
        let (tx, rx) = new_channel();
        let cancelled = Arc::new(AtomicBool::new(false));
        self.rx = Some(rx);
        self.cancel = Some(share_flag(&cancelled));
        StartOutcome::Started(SearchTask {
            root: self.search_path.clone(),
            mode: self.mode,
            pattern: re,
            sender: tx,
            cancel: cancelled,
        })
    }
}

/// The history position after an arrow key: `up` steps to older entries
/// (at most the oldest of `len`), down to newer ones and then off the list.
pub open spec fn history_step(idx: Option<usize>, up: bool, len: nat) -> Option<usize> {
    match idx {
        None => if up {
            Some(0usize)
        } else {
            None
        },
        Some(i) => if up {
            Some(if i + 1 < len { (i + 1) as usize } else { (len - 1) as usize })
        } else if i == 0 {
            None
        } else {
            Some((i - 1) as usize)
        },
    }
}

/// Matches over all of `results`.
pub open spec fn match_total(results: Seq<SearchResult>) -> nat
    decreases results.len(),
{
    if results.len() == 0 {
        0
    } else {
        match_total(results.drop_last()) + results.last().matches@.len()
    }
}

/// [`match_total`], or the largest `usize` where that is larger.
pub open spec fn capped_total(results: Seq<SearchResult>) -> usize {
    sat_add(match_total(results), 0)
}

/// Taking one result out of a list takes its matches out of the total.
proof fn lemma_total_remove(s: Seq<SearchResult>, i: int)
    requires
        0 <= i < s.len(),
    ensures
        match_total(s) == match_total(s.remove(i)) + s[i].matches@.len(),
    decreases s.len(),
{
    if i == s.len() - 1 {
        assert(s.remove(i) =~= s.drop_last());
    } else {
        lemma_total_remove(s.drop_last(), i);
        assert(s.remove(i).drop_last() =~= s.drop_last().remove(i));
        assert(s.remove(i).last() == s.last());
    }
}

/// Lists holding the same results, in any order, have the same total.
proof fn lemma_total_perm(a: Seq<SearchResult>, b: Seq<SearchResult>)
    requires
        a.to_multiset() == b.to_multiset(),
    ensures
        match_total(a) == match_total(b),
    decreases a.len(),
{
    broadcast use vstd::seq_lib::group_to_multiset_ensures, vstd::multiset::group_multiset_axioms;
    if a.len() == 0 {
        assert(b.to_multiset().len() == 0);
    } else {
        let x = a.last();
        let rest = a.drop_last();
        assert(a =~= rest.push(x));
        assert(a.to_multiset().count(x) > 0);
        assert(b.contains(x));
        let i = choose|i: int| 0 <= i < b.len() && b[i] == x;
        assert(rest.to_multiset() =~= a.to_multiset().remove(x));
        assert(b.remove(i).to_multiset() =~= b.to_multiset().remove(x));
        lemma_total_perm(rest, b.remove(i));
        lemma_total_remove(b, i);
    }
}

impl App {
    /// Whether the running counts agree with the kept results: one count per
    /// result, and their matches summed (capped at the largest `usize`).
    pub open spec fn tallied(&self) -> bool {
        &&& self.live_count == self.results@.len()
        &&& self.live_matches == capped_total(self.results@)
    }
}

impl App {
    /// Takes one message of the running search. A result is kept while
    /// fewer than 2000 are; the first one past that marks the results as
    /// capped and raises the stop flag. The end of the search sorts the
    /// results by path, fixes the match count and the final status, and
    /// drops the channel and the stop flag. Returns whether the search ended.
    pub fn receive(&mut self, msg: SearchMsg) -> (done: bool)
        ensures
            match msg {
                SearchMsg::Result(res) => {
                    &&& !done
                    &&& old(self).tallied() && old(self).results@.len() <= MAX_RESULTS ==> final(self).tallied()
                    &&& old(self).results@.len() <= MAX_RESULTS ==> final(self).results@.len() <= MAX_RESULTS
                    &&& old(self).results@.len() < MAX_RESULTS ==> {
                        &&& final(self).results@ == old(self).results@.push(res)
                        &&& final(self).live_matches == sat_add(old(self).live_matches as nat, res.matches@.len())
                        &&& final(self).live_count == sat_add(old(self).live_count as nat, 1)
                        &&& final(self).result_capped == old(self).result_capped
                    }
                    &&& old(self).results@.len() >= MAX_RESULTS ==> {
                        &&& final(self).results == old(self).results
                        &&& final(self).live_matches == old(self).live_matches
                        &&& final(self).live_count == old(self).live_count
                        &&& final(self).result_capped
                    }
                    &&& *final(self) == (App {
                        results: final(self).results,
                        live_matches: final(self).live_matches,
                        live_count: final(self).live_count,
                        result_capped: final(self).result_capped,
                        ..*old(self)
                    })
                },
                SearchMsg::Done(ms) => {
                    &&& done
                    &&& old(self).tallied() ==> final(self).total_matches == capped_total(final(self).results@)
                    &&& final(self).results@.to_multiset() == old(self).results@.to_multiset()
                    &&& sorted_by_path(final(self).results@)
                    &&& final(self).total_matches == old(self).live_matches
                    &&& final(self).status@ == done_status(old(self).mode, old(self).results@.len(),
                        old(self).live_matches as nat, old(self).result_capped, ms as nat)
                    &&& *final(self) == (App {
                        results: final(self).results,
                        total_matches: old(self).live_matches,
                        status: final(self).status,
                        searching: false,
                        cancel: None,
                        rx: None,
                        ..*old(self)
                    })
                },
            },
    {
        match msg {
            SearchMsg::Result(r) => {
                if self.results.len() < MAX_RESULTS {
                    let ghost before = self.results@;
                    self.live_matches = self.live_matches.saturating_add(r.matches.len());
                    self.results.push(r);
                    self.live_count = self.live_count.saturating_add(1);
                    proof {
                        assert(self.results@.drop_last() =~= before);
                        assert(match_total(self.results@) == match_total(before) + self.results@.last().matches@.len());
                    }
                } else if !self.result_capped {
                    self.result_capped = true;
                    if let Some(c) = &self.cancel {
                        raise_stop_flag(c);
                    }
                }
                false
            },
            SearchMsg::Done(ms) => {
                let ghost before = self.results@;
                sort_by_path(&mut self.results);
                proof {
                    lemma_total_perm(self.results@, before);
                }
                self.total_matches = self.live_matches;
                self.status = final_status(self.mode, self.results.len(), self.total_matches, self.result_capped, ms);
                self.searching = false;
                self.cancel = None;
                self.rx = None;
                true
            },
        }
    }

    /// After the pending messages were taken: while the search goes on and
    /// results came in, the status shows the running counts.
    pub fn finish_drain(&mut self, got: bool, done: bool)
        ensures
            got && !done ==> final(self).status@ == live_status(old(self).mode, old(self).live_count as nat,
                old(self).live_matches as nat, old(self).result_capped),
            !(got && !done) ==> final(self).status == old(self).status,
            *final(self) == (App { status: final(self).status, ..*old(self) }),
    {
        if got && !done {
            self.status = running_status(self.mode, self.live_count, self.live_matches, self.result_capped);
        }
    }
}

/// `a + b`, or the largest `usize` where that is larger.
pub open spec fn sat_add(a: nat, b: nat) -> usize {
    if a + b > usize::MAX {
        usize::MAX
    } else {
        (a + b) as usize
    }
}

/// Lexicographic order of texts by code point, which is the order of their
/// UTF-8 bytes.
pub open spec fn text_lt(a: Seq<char>, b: Seq<char>) -> bool
    decreases a.len(),
{
    if a.len() == 0 {
        b.len() > 0
    } else if b.len() == 0 {
        false
    } else if a[0] != b[0] {
        (a[0] as u32) < (b[0] as u32)
    } else {
        text_lt(a.drop_first(), b.drop_first())
    }
}

/// Results in order of their paths.
pub open spec fn sorted_by_path(v: Seq<SearchResult>) -> bool {
    forall|i: int, j: int| 0 <= i < j < v.len() ==> !text_lt(#[trigger] v[j].path@, #[trigger] v[i].path@)
}

/// Sign of the comparison of two texts in the order of [`text_lt`].
fn text_order(a: &String, b: &String) -> (r: i8)
    ensures
        r < 0 <==> text_lt(a@, b@),
        r > 0 <==> text_lt(b@, a@),
        r == 0 <==> a@ == b@,
{
    let x = chars_of(a.as_str());
    let y = chars_of(b.as_str());
    let mut i: usize = 0;
    assert(x@.skip(0) =~= x@);
    assert(y@.skip(0) =~= y@);
    while i < x.len() && i < y.len()
        invariant
            x@ == a@,
            y@ == b@,
            i <= x@.len(),
            i <= y@.len(),
            x@.take(i as int) == y@.take(i as int),
            text_lt(a@, b@) == text_lt(x@.skip(i as int), y@.skip(i as int)),
            text_lt(b@, a@) == text_lt(y@.skip(i as int), x@.skip(i as int)),
        decreases x@.len() - i,
    {
        let ghost xs = x@.skip(i as int);
        let ghost ys = y@.skip(i as int);
        assert(xs[0] == x@[i as int]);
        assert(ys[0] == y@[i as int]);
        let cx = x[i];
        let cy = y[i];
        if cx != cy {
            proof {
                vstd::utf8::char_u32_cast(cx, cx as u32);
                vstd::utf8::char_u32_cast(cy, cy as u32);
            }
            if (cx as u32) < (cy as u32) {
                return -1;
            }
            return 1;
        }
        assert(xs.drop_first() =~= x@.skip(i + 1));
        assert(ys.drop_first() =~= y@.skip(i + 1));
        assert(x@.take(i + 1) =~= x@.take(i as int).push(x@[i as int]));
        assert(y@.take(i + 1) =~= y@.take(i as int).push(y@[i as int]));
        i += 1;
    }
    let ghost xs = x@.skip(i as int);
    let ghost ys = y@.skip(i as int);
    if x.len() < y.len() {
        assert(xs.len() == 0 && ys.len() > 0);
        -1
    } else if y.len() < x.len() {
        assert(ys.len() == 0 && xs.len() > 0);
        1
    } else {
        assert(x@ =~= x@.take(i as int));
        assert(y@ =~= y@.take(i as int));
        0
    }
}

/// Compares two texts in the order of [`text_lt`].
pub fn compare_text(a: &String, b: &String) -> (r: std::cmp::Ordering)
    ensures
        r == std::cmp::Ordering::Less <==> text_lt(a@, b@),
        r == std::cmp::Ordering::Greater <==> text_lt(b@, a@),
        r == std::cmp::Ordering::Equal <==> a@ == b@,
{
    let o = text_order(a, b);
    if o < 0 {
        std::cmp::Ordering::Less
    } else if o > 0 {
        std::cmp::Ordering::Greater
    } else {
        std::cmp::Ordering::Equal
    }
}

/// `slice::sort_unstable_by`, ordering the results by [`compare_text`] on
/// their paths. The contract claims what the documentation of the sort
/// gives for a comparator that is a total order: the same results, in
/// order.
#[verifier::external_body]
fn sort_by_path(results: &mut Vec<SearchResult>)
    ensures
        final(results)@.len() == old(results)@.len(),
        final(results)@.to_multiset() == old(results)@.to_multiset(),
        sorted_by_path(final(results)@),
{
    results.sort_unstable_by(|a, b| compare_text(&a.path, &b.path));
}

/// The status while a search runs.
pub open spec fn live_status(mode: SearchMode, live_count: nat, live_matches: nat, capped: bool) -> Seq<char> {
    if mode == SearchMode::Filename {
        "搜索中… 已找到 "@ + decimal(live_count) + " 个文件"@ + if capped {
            "（已达上限）"@
        } else {
            ""@
        }
    } else {
        "搜索中… "@ + decimal(live_matches) + " 处匹配 / "@ + decimal(live_count) + " 个文件"@
    }
}

/// The status when a search has ended after `ms` milliseconds with
/// `n_results` results holding `total` matches.
pub open spec fn done_status(mode: SearchMode, n_results: nat, total: nat, capped: bool, ms: nat) -> Seq<char> {
    if n_results == 0 {
        "未找到结果 ("@ + decimal(ms) + "ms)"@
    } else if mode == SearchMode::Filename {
        if capped {
            "找到 "@ + decimal(MAX_RESULTS as nat) + "+ 个文件（已截断）("@ + decimal(ms) + "ms)"@
        } else {
            "找到 "@ + decimal(n_results) + " 个文件 ("@ + decimal(ms) + "ms)"@
        }
    } else {
        decimal(total) + " 处匹配，共 "@ + decimal(n_results) + " 个文件 ("@ + decimal(ms) + "ms)"@
    }
}

fn running_status(mode: SearchMode, live_count: usize, live_matches: usize, capped: bool) -> (r: String)
    ensures
        r@ == live_status(mode, live_count as nat, live_matches as nat, capped),
{
    if mode == SearchMode::Filename {
        let mut s = "搜索中… 已找到 ".to_owned();
        push_decimal(&mut s, live_count as u128);
        s.append(" 个文件");
        if capped {
            s.append("（已达上限）");
        } else {
            s.append("");
        }
        s
    } else {
        let mut s = "搜索中… ".to_owned();
        push_decimal(&mut s, live_matches as u128);
        s.append(" 处匹配 / ");
        push_decimal(&mut s, live_count as u128);
        s.append(" 个文件");
        s
    }
}

fn final_status(mode: SearchMode, n_results: usize, total: usize, capped: bool, ms: u128) -> (r: String)
    ensures
        r@ == done_status(mode, n_results as nat, total as nat, capped, ms as nat),
{
    if n_results == 0 {
        let mut s = "未找到结果 (".to_owned();
        push_decimal(&mut s, ms);
        s.append("ms)");
        s
    } else if mode == SearchMode::Filename {
        if capped {
            let mut s = "找到 ".to_owned();
            push_decimal(&mut s, MAX_RESULTS as u128);
            s.append("+ 个文件（已截断）(");
            push_decimal(&mut s, ms);
            s.append("ms)");
            s
        } else {
            let mut s = "找到 ".to_owned();
            push_decimal(&mut s, n_results as u128);
            s.append(" 个文件 (");
            push_decimal(&mut s, ms);
            s.append("ms)");
            s
        }
    } else {
        let mut s = String::new();
        push_decimal(&mut s, total as u128);
        s.append(" 处匹配，共 ");
        push_decimal(&mut s, n_results as u128);
        s.append(" 个文件 (");
        push_decimal(&mut s, ms);
        s.append("ms)");
        s
    }
}


/// Whether `needle` occurs in `hay`.
pub open spec fn has_substring(hay: Seq<char>, needle: Seq<char>) -> bool {
    exists|i: int| 0 <= i && i + needle.len() <= hay.len() && #[trigger] hay.subrange(i, i + needle.len()) == needle
}

/// Whether `needle` occurs in `hay` (`str::contains`).
pub fn contains_str(hay: &str, needle: &str) -> (r: bool)
    ensures
        r == has_substring(hay@, needle@),
{
    let h = chars_of(hay);
    let n = chars_of(needle);
    let hl = h.len();
    let nl = n.len();
    if nl == 0 {
        assert(hay@.subrange(0int, 0int + needle@.len()) =~= needle@);
        return true;
    }
    if nl > hl {
        return false;
    }
    let last = hl - nl;
    let mut i: usize = 0;
    while i < last + 1
        invariant
            h@ == hay@,
            n@ == needle@,
            hl == h@.len(),
            nl == n@.len(),
            0 < nl <= hl,
            last == hl - nl,
            i <= last + 1,
            forall|j: int| 0 <= j < i ==> #[trigger] h@.subrange(j, j + n@.len()) != n@,
        decreases last + 1 - i,
    {
        let mut k: usize = 0;
        let mut same = true;
        while k < nl
            invariant
                h@ == hay@,
                n@ == needle@,
                hl == h@.len(),
                nl == n@.len(),
                i <= last,
                last == hl - nl,
                k <= nl,
                same == (forall|m: int| 0 <= m < k ==> h@[i + m] == n@[m]),
            decreases nl - k,
        {
            if h[i + k] != n[k] {
                same = false;
            }
            k += 1;
        }
        if same {
            assert(h@.subrange(i as int, i + n@.len()) =~= n@);
            return true;
        }
        proof {
            let m = choose|m: int| 0 <= m < n@.len() && h@[i + m] != n@[m];
            assert(h@.subrange(i as int, i + n@.len())[m] != n@[m]);
        }
        i += 1;
    }
    proof {
        if has_substring(hay@, needle@) {
            let j = choose|j: int| 0 <= j && j + needle@.len() <= hay@.len() && #[trigger] hay@.subrange(j, j + needle@.len()) == needle@;
            assert(h@.subrange(j, j + n@.len()) == n@);
        }
    }
    false
}

proof fn lemma_push_to_set(s: Seq<Seq<char>>, x: Seq<char>)
    ensures
        s.push(x).to_set() == s.to_set().insert(x),
{
    assert forall|p: Seq<char>| s.push(x).contains(p) <==> (s.contains(p) || p == x) by {
        if s.contains(p) {
            let i = choose|i: int| 0 <= i < s.len() && s[i] == p;
            assert(s.push(x)[i] == p);
        }
        if p == x {
            assert(s.push(x)[s.len() as int] == x);
        }
        if s.push(x).contains(p) {
            let i = choose|i: int| 0 <= i < s.push(x).len() && s.push(x)[i] == p;
            if i < s.len() {
                assert(s[i] == p);
            }
        }
    }
    assert forall|p: Seq<char>| #[trigger] s.push(x).to_set().contains(p) == s.to_set().insert(x).contains(p) by {
        assert(s.push(x).to_set().contains(p) == s.push(x).contains(p));
        assert(s.to_set().contains(p) == s.contains(p));
    }
    assert(s.push(x).to_set() =~= s.to_set().insert(x));
}

pub open spec fn text_set(v: Seq<String>) -> Set<Seq<char>> {
    texts(v).to_set()
}

/// `v` without the entries equal to `s`.
fn remove_text(v: &Vec<String>, s: &String) -> (r: Vec<String>)
    ensures
        text_set(r@) == text_set(v@).remove(s@),
{
    let mut r: Vec<String> = Vec::new();
    let mut i: usize = 0;
    while i < v.len()
        invariant
            i <= v@.len(),
            text_set(r@) == text_set(v@.take(i as int)).remove(s@),
        decreases v@.len() - i,
    {
        let ghost before = r@;
        if !(v[i] == *s) {
            r.push(v[i].clone());
        }
        proof {
            assert(v@.take(i + 1) =~= v@.take(i as int).push(v@[i as int]));
            assert(texts(v@.take(i + 1)) =~= texts(v@.take(i as int)).push(v@[i as int]@));
            if !(v@[i as int]@ == s@) {
                assert(texts(r@) =~= texts(before).push(v@[i as int]@));
            }
            lemma_push_to_set(texts(v@.take(i as int)), v@[i as int]@);
            if !(v@[i as int]@ == s@) {
                lemma_push_to_set(texts(before), v@[i as int]@);
            }
            assert(text_set(r@) =~= text_set(v@.take(i + 1)).remove(s@));
        }
        i += 1;
    }
    assert(v@.take(v@.len() as int) =~= v@);
    r
}

/// Whether `v` holds `s`.
fn has_text(v: &Vec<String>, s: &String) -> (r: bool)
    ensures
        r == text_set(v@).contains(s@),
{
    let mut i: usize = 0;
    while i < v.len()
        invariant
            i <= v@.len(),
            forall|j: int| 0 <= j < i ==> v@[j]@ != s@,
        decreases v@.len() - i,
    {
        if v[i] == *s {
            assert(texts(v@)[i as int] == s@);
            return true;
        }
        i += 1;
    }
    proof {
        if text_set(v@).contains(s@) {
            let j = choose|j: int| 0 <= j < texts(v@).len() && texts(v@)[j] == s@;
            assert(v@[j]@ == s@);
        }
    }
    false
}

impl App {
    /// The paths whose matches are folded away.
    pub open spec fn collapsed_paths(&self) -> Set<Seq<char>> {
        text_set(self.collapsed@)
    }

    /// The paths whose matches are all shown.
    pub open spec fn expanded_paths(&self) -> Set<Seq<char>> {
        text_set(self.expanded@)
    }

    /// Keeps the lower-cased filter in step with the filter text.
    pub fn refresh_filter(&mut self)
        ensures
            final(self).filter_lc@ == lowercase_text(old(self).filter@),
            *final(self) == (App { filter_lc: final(self).filter_lc, ..*old(self) }),
    {
        let new_lc = lowercase(self.filter.as_str());
        if !(new_lc == self.filter_lc) {
            self.filter_lc = new_lc;
        }
    }

    /// Clears the result filter.
    pub fn clear_filter(&mut self)
        ensures
            final(self).filter@.len() == 0,
            final(self).filter_lc@.len() == 0,
            *final(self) == (App { filter: final(self).filter, filter_lc: final(self).filter_lc, ..*old(self) }),
    {
        self.filter = String::new();
        self.filter_lc = String::new();
    }

    /// Whether a result passes the filter: the filter is empty or its
    /// lower-cased text occurs in the lower-cased path.
    pub fn is_shown(&self, result: &SearchResult) -> (r: bool)
        ensures
            r == (self.filter_lc@.len() == 0 || has_substring(result.path_lc@, self.filter_lc@)),
    {
        self.filter_lc.as_str().is_empty() || contains_str(result.path_lc.as_str(), self.filter_lc.as_str())
    }

    /// Folds or unfolds the matches of the result at `path`.
    pub fn toggle_collapse(&mut self, path: String)
        ensures
            final(self).collapsed_paths() == toggled(old(self).collapsed_paths(), path@),
            *final(self) == (App { collapsed: final(self).collapsed, ..*old(self) }),
    {
        if has_text(&self.collapsed, &path) {
            self.collapsed = remove_text(&self.collapsed, &path);
        } else {
            let ghost before = self.collapsed@;
            self.collapsed.push(path);
            proof {
                assert(texts(self.collapsed@) =~= texts(before).push(self.collapsed@.last()@));
                lemma_push_to_set(texts(before), self.collapsed@.last()@);
            }
        }
    }

    /// Shows all matches of the result at `path`.
    pub fn expand(&mut self, path: String)
        ensures
            final(self).expanded_paths() == old(self).expanded_paths().insert(path@),
            *final(self) == (App { expanded: final(self).expanded, ..*old(self) }),
    {
        if !has_text(&self.expanded, &path) {
            let ghost before = self.expanded@;
            self.expanded.push(path);
            proof {
                assert(texts(self.expanded@) =~= texts(before).push(self.expanded@.last()@));
                lemma_push_to_set(texts(before), self.expanded@.last()@);
            }
        } else {
            assert(old(self).expanded_paths().insert(path@) =~= old(self).expanded_paths());
        }
    }

    /// Unfolds the matches of every result.
    pub fn expand_all(&mut self)
        ensures
            final(self).collapsed_paths() == Set::<Seq<char>>::empty(),
            *final(self) == (App { collapsed: final(self).collapsed, ..*old(self) }),
    {
        self.collapsed.clear();
        assert(text_set(self.collapsed@) =~= Set::<Seq<char>>::empty());
    }

    /// Folds the matches of every result.
    pub fn collapse_all(&mut self)
        ensures
            final(self).collapsed_paths() == old(self).collapsed_paths().union(
                result_paths(old(self).results@).to_set(),
            ),
            *final(self) == (App { collapsed: final(self).collapsed, ..*old(self) }),
    {
        let mut i: usize = 0;
        proof {
            assert(result_paths(old(self).results@.take(0)).to_set() =~= Set::<Seq<char>>::empty());
            assert(old(self).collapsed_paths().union(Set::<Seq<char>>::empty()) =~= old(self).collapsed_paths());
        }
        while i < self.results.len()
            invariant
                i <= self.results@.len(),
                *self == (App { collapsed: self.collapsed, ..*old(self) }),
                self.collapsed_paths() == old(self).collapsed_paths().union(
                    result_paths(old(self).results@.take(i as int)).to_set(),
                ),
            decreases self.results@.len() - i,
        {
            proof {
                assert(old(self).results@.take(i + 1) =~= old(self).results@.take(i as int).push(
                    old(self).results@[i as int],
                ));
                assert(result_paths(old(self).results@.take(i + 1)) =~= result_paths(
                    old(self).results@.take(i as int),
                ).push(old(self).results@[i as int].path@));
                lemma_push_to_set(
                    result_paths(old(self).results@.take(i as int)),
                    old(self).results@[i as int].path@,
                );
            }
            let p = self.results[i].path.clone();
            if !has_text(&self.collapsed, &p) {
                let ghost before = self.collapsed@;
                self.collapsed.push(p);
                proof {
                    assert(texts(self.collapsed@) =~= texts(before).push(self.collapsed@.last()@));
                    lemma_push_to_set(texts(before), self.collapsed@.last()@);
                }
            }
            proof {
                let added = result_paths(old(self).results@.take(i as int));
                let p = old(self).results@[i as int].path@;
                assert(self.collapsed_paths() =~= old(self).collapsed_paths().union(added.to_set()).insert(p));
                assert(old(self).collapsed_paths().union(added.to_set()).insert(p) =~= old(self).collapsed_paths().union(
                    added.to_set().insert(p),
                ));
            }
            i += 1;
        }
        assert(old(self).results@.take(old(self).results@.len() as int) =~= old(self).results@);
    }
}


/// Number of matches of a result shown: none in file-name mode or when
/// folded, all when expanded, else at most five.
pub open spec fn shown_count(mode: SearchMode, collapsed: bool, expanded: bool, n: nat) -> nat {
    if mode == SearchMode::Text && !collapsed {
        if expanded {
            n
        } else if n < COLLAPSE_THRESHOLD {
            n
        } else {
            COLLAPSE_THRESHOLD as nat
        }
    } else {
        0
    }
}

/// `paths` joined with `\n` between them.
pub open spec fn joined_lines(paths: Seq<Seq<char>>) -> Seq<char>
    decreases paths.len(),
{
    if paths.len() == 0 {
        seq![]
    } else if paths.len() == 1 {
        paths[0]
    } else {
        joined_lines(paths.drop_last()) + seq!['\n'] + paths.last()
    }
}

pub open spec fn result_paths(results: Seq<SearchResult>) -> Seq<Seq<char>> {
    results.map_values(|r: SearchResult| r.path@)
}

impl App {
    /// How the matches of `result` are shown: whether they are folded, how
    /// many are shown, and whether a button offers the rest.
    pub fn match_display(&self, result: &SearchResult) -> (r: (bool, usize, bool))
        ensures
            r.0 == self.collapsed_paths().contains(result.path@),
            r.1 == shown_count(self.mode, r.0, self.expanded_paths().contains(result.path@), result.matches@.len()),
            r.2 == (self.mode == SearchMode::Text && !r.0 && result.matches@.len() > COLLAPSE_THRESHOLD
                && !self.expanded_paths().contains(result.path@)),
    {
        let is_collapsed = has_text(&self.collapsed, &result.path);
        let is_expanded = has_text(&self.expanded, &result.path);
        let n = result.matches.len();
        let shown = if self.mode == SearchMode::Text && !is_collapsed {
            if is_expanded {
                n
            } else if n < COLLAPSE_THRESHOLD {
                n
            } else {
                COLLAPSE_THRESHOLD
            }
        } else {
            0
        };
        let has_more = self.mode == SearchMode::Text && !is_collapsed && n > COLLAPSE_THRESHOLD && !is_expanded;
        (is_collapsed, shown, has_more)
    }

    /// The paths of all results, one per line.
    pub fn all_paths_text(&self) -> (r: String)
        ensures
            r@ == joined_lines(result_paths(self.results@)),
    {
        let mut out = String::new();
        let mut i: usize = 0;
        while i < self.results.len()
            invariant
                i <= self.results@.len(),
                out@ == joined_lines(result_paths(self.results@.take(i as int))),
            decreases self.results@.len() - i,
        {
            proof {
                assert(result_paths(self.results@.take(i + 1)).drop_last() =~= result_paths(self.results@.take(i as int)));
                assert(result_paths(self.results@.take(i + 1)).last() == self.results@[i as int].path@);
            }
            if i > 0 {
                push_char(&mut out, '\n');
            }
            out.append(self.results[i].path.as_str());
            proof {
                if i == 0 {
                    assert(result_paths(self.results@.take(1)).len() == 1);
                    assert(out@ =~= self.results@[0].path@);
                }
            }
            i += 1;
        }
        assert(self.results@.take(self.results@.len() as int) =~= self.results@);
        out
    }
}

/// What a display row of a match shows.
#[derive(Clone, Copy, PartialEq, Eq, Debug, Structural)]
pub enum RowKind {
    /// The line before the match.
    Before,
    /// The matching line.
    Hit,
    /// The line after the match.
    After,
}

/// A display row: what it shows, its line number, and the index of the
/// match it belongs to.
#[derive(Clone, Copy, PartialEq, Eq, Debug, Structural)]
pub struct Row {
    pub kind: RowKind,
    pub line_num: usize,
    pub index: usize,
}

/// Rows for the matches `ms`, the first with index `base`, after a row for
/// line `last` (if any): each match shows its context line before unless
/// that line was just shown, then itself, then its context line after.
pub open spec fn rows_from(ms: Seq<MatchView>, base: nat, last: Option<nat>) -> Seq<Row>
    decreases ms.len(),
{
    if ms.len() == 0 {
        seq![]
    } else {
        let m = ms[0];
        let before_num: nat = if m.line_num > 0 { (m.line_num - 1) as nat } else { 0 };
        let before = if m.context_before is Some && last != Some(before_num) {
            seq![Row { kind: RowKind::Before, line_num: before_num as usize, index: base as usize }]
        } else {
            seq![]
        };
        let hit = seq![Row { kind: RowKind::Hit, line_num: m.line_num as usize, index: base as usize }];
        let after = if m.context_after is Some {
            seq![Row { kind: RowKind::After, line_num: (m.line_num + 1) as usize, index: base as usize }]
        } else {
            seq![]
        };
        let next_last = if m.context_after is Some { m.line_num + 1 } else { m.line_num };
        before + hit + after + rows_from(ms.drop_first(), base + 1, Some(next_last))
    }
}

/// The display rows for the first `shown` matches, so that a context line
/// that is also the previous match's context line after is shown once.
pub fn display_rows(matches: &[Match], shown: usize) -> (r: Vec<Row>)
    requires
        shown <= matches@.len(),
        forall|i: int| 0 <= i < matches@.len() ==> #[trigger] matches@[i].line_num < usize::MAX,
    ensures
        r@ == rows_from(matches@.take(shown as int).map_values(|m: Match| m@), 0, None),
{
    let ghost all = matches@.take(shown as int).map_values(|m: Match| m@);
    let mut rows: Vec<Row> = Vec::new();
    let mut last: Option<usize> = None;
    let mut i: usize = 0;
    proof {
        assert(all.skip(0) =~= all);
    }
    while i < shown
        invariant
            shown <= matches@.len(),
            all == matches@.take(shown as int).map_values(|m: Match| m@),
            forall|k: int| 0 <= k < matches@.len() ==> #[trigger] matches@[k].line_num < usize::MAX,
            i <= shown,
            rows_from(all, 0, None) == rows@ + rows_from(all.skip(i as int), i as nat, match last {
                Some(l) => Some(l as nat),
                None => None,
            }),
            i == 0 ==> last is None,
        decreases shown - i,
    {
        let m = &matches[i];
        let ghost rest = all.skip(i as int);
        proof {
            assert(rest[0] == m@);
            assert(rest.drop_first() =~= all.skip(i + 1));
            assert(matches@[i as int].line_num < usize::MAX);
        }
        let ghost before_rows = rows@;
        let ghost prev_last: Option<nat> = match last {
            Some(l) => Some(l as nat),
            None => None,
        };
        let before_num = if m.line_num > 0 { m.line_num - 1 } else { 0 };
        let show_before = match &m.context_before {
            Some(_) => match last {
                Some(l) => l != before_num,
                None => true,
            },
            None => false,
        };
        if show_before {
            rows.push(Row { kind: RowKind::Before, line_num: before_num, index: i });
        }
        rows.push(Row { kind: RowKind::Hit, line_num: m.line_num, index: i });
        last = Some(m.line_num);
        if m.context_after.is_some() {
            rows.push(Row { kind: RowKind::After, line_num: m.line_num + 1, index: i });
            last = Some(m.line_num + 1);
        }
        proof {
            let mv = rest[0];
            let bn: nat = if mv.line_num > 0 { (mv.line_num - 1) as nat } else { 0 };
            assert(bn == before_num);
            let b: Seq<Row> = if mv.context_before is Some && prev_last != Some(bn) {
                seq![Row { kind: RowKind::Before, line_num: bn as usize, index: i as usize }]
            } else {
                seq![]
            };
            let h = seq![Row { kind: RowKind::Hit, line_num: mv.line_num as usize, index: i as usize }];
            let a: Seq<Row> = if mv.context_after is Some {
                seq![Row { kind: RowKind::After, line_num: (mv.line_num + 1) as usize, index: i as usize }]
            } else {
                seq![]
            };
            assert(rows@ =~= before_rows + b + h + a);
            assert(rows_from(rest, i as nat, prev_last) == b + h + a + rows_from(rest.drop_first(), (i + 1) as nat,
                Some(if mv.context_after is Some { mv.line_num + 1 } else { mv.line_num as nat })));
        }
        i += 1;
    }
    rows
}


/// A set with `p` taken out when it holds it, else put in.
pub open spec fn toggled(s: Set<Seq<char>>, p: Seq<char>) -> Set<Seq<char>> {
    if s.contains(p) {
        s.remove(p)
    } else {
        s.insert(p)
    }
}

/// Folding a result twice leaves the folded results as they were.
pub proof fn law_toggle_twice(s: Set<Seq<char>>, p: Seq<char>)
    ensures
        toggled(toggled(s, p), p) == s,
{
    if s.contains(p) {
        assert(s.remove(p).insert(p) =~= s);
    } else {
        assert(s.insert(p).remove(p) =~= s);
    }
}

/// Whether no entry of `h` occurs twice.
pub open spec fn no_repeats(h: Seq<Seq<char>>) -> bool {
    forall|i: int, j: int| 0 <= i < j < h.len() ==> h[i] != h[j]
}

proof fn lemma_without_entry(h: Seq<Seq<char>>, v: Seq<char>)
    ensures
        !without_entry(h, v).contains(v),
        without_entry(h, v).len() <= h.len(),
        forall|x: Seq<char>| #[trigger] without_entry(h, v).contains(x) ==> h.contains(x),
        no_repeats(h) ==> no_repeats(without_entry(h, v)),
        !h.contains(v) ==> without_entry(h, v) == h,
    decreases h.len(),
{
    if h.len() > 0 {
        let t = h.drop_last();
        lemma_without_entry(t, v);
        let w = without_entry(t, v);
        assert forall|x: Seq<char>| t.contains(x) implies h.contains(x) by {
            let i = choose|i: int| 0 <= i < t.len() && t[i] == x;
            assert(h[i] == x);
        }
        if h.last() != v {
            assert forall|x: Seq<char>| #[trigger] w.push(h.last()).contains(x) implies h.contains(x) by {
                let i = choose|i: int| 0 <= i < w.push(h.last()).len() && w.push(h.last())[i] == x;
                if i == w.len() {
                    assert(h[h.len() - 1] == x);
                } else {
                    assert(w.contains(x));
                }
            }
            if w.push(h.last()).contains(v) {
                let i = choose|i: int| 0 <= i < w.push(h.last()).len() && w.push(h.last())[i] == v;
                if i < w.len() {
                    assert(w[i] == v);
                }
            }
            if no_repeats(h) {
                assert forall|i: int| 0 <= i < t.len() implies t[i] != h.last() by {
                    assert(h[i] == t[i]);
                }
                assert(no_repeats(t)) by {
                    assert forall|i: int, j: int| 0 <= i < j < t.len() implies t[i] != t[j] by {
                        assert(h[i] == t[i] && h[j] == t[j]);
                    }
                }
                assert forall|i: int, j: int| 0 <= i < j < w.push(h.last()).len() implies w.push(h.last())[i] != w.push(h.last())[j] by {
                    if j == w.len() {
                        assert(w.contains(w[i]));
                        assert(t.contains(w[i]));
                        let k = choose|k: int| 0 <= k < t.len() && t[k] == w[i];
                        assert(t[k] != h.last());
                    }
                }
            }
            if !h.contains(v) {
                assert(!t.contains(v)) by {
                    if t.contains(v) {
                        let i = choose|i: int| 0 <= i < t.len() && t[i] == v;
                        assert(h[i] == v);
                    }
                }
                assert(h =~= t.push(h.last()));
            }
        } else {
            assert(h.contains(v)) by {
                assert(h[h.len() - 1] == v);
            }
            if no_repeats(h) {
                assert(no_repeats(t)) by {
                    assert forall|i: int, j: int| 0 <= i < j < t.len() implies t[i] != t[j] by {
                        assert(h[i] == t[i] && h[j] == t[j]);
                    }
                }
            }
        }
    }
}

/// After a value is used, the history starts with it, holds it once, keeps
/// at most twenty entries, and repeats nothing that it did not repeat
/// before.
pub proof fn law_history_front(h: Seq<Seq<char>>, v: Seq<char>)
    ensures
        history_after(h, v)[0] == v,
        history_after(h, v).len() <= MAX_HISTORY,
        forall|i: int| 0 < i < history_after(h, v).len() ==> #[trigger] history_after(h, v)[i] != v,
        no_repeats(h) ==> no_repeats(history_after(h, v)),
{
    lemma_without_entry(h, v);
    let w = without_entry(h, v);
    let all = seq![v] + w;
    assert forall|i: int| 0 < i < all.len() implies #[trigger] all[i] != v by {
        assert(all[i] == w[i - 1]);
        if all[i] == v {
            assert(w.contains(v));
        }
    }
    if no_repeats(h) {
        assert forall|i: int, j: int| 0 <= i < j < all.len() implies all[i] != all[j] by {
            if i > 0 {
                assert(all[i] == w[i - 1] && all[j] == w[j - 1]);
            }
        }
    }
}

/// Using the same value twice in a row leaves the history as using it
/// once does.
pub proof fn law_history_idempotent(h: Seq<Seq<char>>, v: Seq<char>)
    ensures
        history_after(history_after(h, v), v) == history_after(h, v),
{
    law_history_front(h, v);
    let a = history_after(h, v);
    let rest = a.drop_first();
    assert(!rest.contains(v)) by {
        if rest.contains(v) {
            let i = choose|i: int| 0 <= i < rest.len() && rest[i] == v;
            assert(a[i + 1] == v);
        }
    }
    lemma_without_concat(seq![v], rest, v);
    lemma_without_entry(rest, v);
    assert(without_entry(seq![v], v) =~= Seq::<Seq<char>>::empty()) by {
        assert(seq![v].drop_last() =~= Seq::<Seq<char>>::empty());
        assert(seq![v].last() == v);
        assert(without_entry(Seq::<Seq<char>>::empty(), v) == Seq::<Seq<char>>::empty());
    }
    assert(seq![v] + rest =~= a);
    assert(without_entry(a, v) =~= rest);
    assert(seq![v] + rest =~= a);
}

proof fn lemma_without_concat(a: Seq<Seq<char>>, b: Seq<Seq<char>>, v: Seq<char>)
    ensures
        without_entry(a + b, v) == without_entry(a, v) + without_entry(b, v),
    decreases b.len(),
{
    if b.len() == 0 {
        assert(a + b =~= a);
        assert(without_entry(a, v) + without_entry(b, v) =~= without_entry(a, v));
    } else {
        lemma_without_concat(a, b.drop_last(), v);
        assert((a + b).drop_last() =~= a + b.drop_last());
        assert((a + b).last() == b.last());
        if b.last() != v {
            assert(without_entry(a, v) + without_entry(b.drop_last(), v).push(b.last()) =~= (without_entry(a, v)
                + without_entry(b.drop_last(), v)).push(b.last()));
        }
    }
}

/// Pressing up and then down returns to the history position before, from
/// the typed pattern or from any entry that is not the oldest.
pub proof fn law_history_up_down(idx: Option<usize>, len: nat)
    requires
        0 < len <= usize::MAX,
        idx matches Some(i) ==> i + 1 < len,
    ensures
        history_step(history_step(idx, true, len), false, len) == idx,
{
    match idx {
        None => {
            assert(history_step(idx, true, len) == Some(0usize));
        },
        Some(i) => {
            let up = history_step(idx, true, len);
            assert(up == Some((i + 1) as usize));
            assert(((i + 1) as usize) != 0);
            assert((((i + 1) as usize) - 1) as usize == i);
        },
    }
}

/// The copied path list splits back at its line breaks into the paths,
/// when there is at least one path and none holds a line break.
pub proof fn law_paths_text_roundtrip(paths: Seq<Seq<char>>)
    requires
        paths.len() > 0,
        forall|i: int| 0 <= i < paths.len() ==> !(#[trigger] paths[i]).contains('\n'),
    ensures
        split_on(joined_lines(paths), '\n') == paths,
    decreases paths.len(),
{
    if paths.len() == 1 {
        lemma_split_single(paths[0], '\n');
        assert(seq![paths[0]] =~= paths);
    } else {
        let init = paths.drop_last();
        assert forall|i: int| 0 <= i < init.len() implies !(#[trigger] init[i]).contains('\n') by {
            assert(init[i] == paths[i]);
        }
        law_paths_text_roundtrip(init);
        assert(!paths[paths.len() - 1].contains('\n'));
        lemma_split_single(paths.last(), '\n');
        lemma_split_concat(joined_lines(init), paths.last(), '\n');
        assert(init + seq![paths.last()] =~= paths);
    }
}

/// Whether `segs` are non-empty pieces that follow one another without gap
/// or overlap from `from` to `to`.
pub open spec fn tiles(segs: Seq<(usize, usize, bool)>, from: nat, to: nat) -> bool
    decreases segs.len(),
{
    if segs.len() == 0 {
        from == to
    } else {
        &&& segs[0].0 == from
        &&& segs[0].0 < segs[0].1
        &&& tiles(segs.drop_first(), segs[0].1 as nat, to)
    }
}

/// Ranges in order, each ending no later than the next starts, the first
/// starting at or after `cursor`.
pub open spec fn ordered_ranges(ranges: Seq<(usize, usize)>, cursor: nat) -> bool {
    &&& forall|i: int| 0 <= i < ranges.len() ==> #[trigger] ranges[i].0 <= ranges[i].1
    &&& forall|i: int| 0 <= i < ranges.len() - 1 ==> #[trigger] ranges[i].1 <= ranges[i + 1].0
    &&& ranges.len() > 0 ==> cursor <= ranges[0].0
}

proof fn lemma_tiles_concat(a: Seq<(usize, usize, bool)>, b: Seq<(usize, usize, bool)>, from: nat, mid: nat, to: nat)
    requires
        tiles(a, from, mid),
        tiles(b, mid, to),
    ensures
        tiles(a + b, from, to),
    decreases a.len(),
{
    if a.len() == 0 {
        assert(a + b =~= b);
    } else {
        lemma_tiles_concat(a.drop_first(), b, a[0].1 as nat, mid, to);
        assert((a + b).drop_first() =~= a.drop_first() + b);
    }
}

/// The pieces of a highlighted line tile it: for ranges in order, they run
/// from the start of the line to its end without gap or overlap.
pub proof fn law_segments_tile(total: nat, ranges: Seq<(usize, usize)>, cursor: nat)
    requires
        cursor <= total <= usize::MAX,
        ordered_ranges(ranges, cursor),
    ensures
        tiles(segments_from(total, ranges, cursor), cursor, total),
    decreases ranges.len(),
{
    reveal_with_fuel(tiles, 2);
    if ranges.len() == 0 {
        if cursor < total {
            assert(seq![(cursor as usize, total as usize, false)].drop_first() =~= Seq::<(usize, usize, bool)>::empty());
        }
    } else {
        let s: nat = if ranges[0].0 < total { ranges[0].0 as nat } else { total };
        let e: nat = if ranges[0].1 < total { ranges[0].1 as nat } else { total };
        let rest = ranges.drop_first();
        assert(ranges[0].0 <= ranges[0].1);
        assert forall|i: int| 0 <= i < rest.len() - 1 implies #[trigger] rest[i].1 <= rest[i + 1].0 by {
            assert(ranges[i + 1].1 <= ranges[i + 2].0);
        }
        assert forall|i: int| 0 <= i < rest.len() implies #[trigger] rest[i].0 <= rest[i].1 by {
            assert(ranges[i + 1].0 <= ranges[i + 1].1);
        }
        if rest.len() > 0 {
            assert(ranges[0].1 <= ranges[1].0);
        }
        law_segments_tile(total, rest, e);
        let gap: Seq<(usize, usize, bool)> = if s > cursor {
            seq![(cursor as usize, s as usize, false)]
        } else {
            seq![]
        };
        let hit: Seq<(usize, usize, bool)> = if s < e {
            seq![(s as usize, e as usize, true)]
        } else {
            seq![]
        };
        if s > cursor {
            assert(gap.drop_first() =~= Seq::<(usize, usize, bool)>::empty());
        }
        assert(tiles(gap, cursor, s));
        if s < e {
            assert(hit.drop_first() =~= Seq::<(usize, usize, bool)>::empty());
        }
        assert(tiles(hit, s, e));
        lemma_tiles_concat(gap, hit, cursor, s, e);
        lemma_tiles_concat(gap + hit, segments_from(total, rest, e), cursor, e, total);
    }
}

/// Texts are ordered by their first differing character, whatever their
/// lengths: a text starting with a smaller character comes first.
pub proof fn law_text_order_first_difference(c: char, d: char, a: Seq<char>, b: Seq<char>)
    requires
        (c as u32) < (d as u32),
    ensures
        text_lt(seq![c] + a, seq![d] + b),
        !text_lt(seq![d] + b, seq![c] + a),
{
    assert((seq![c] + a)[0] == c);
    assert((seq![d] + b)[0] == d);
}

/// A common start does not change the order of two texts.
pub proof fn law_text_order_common_prefix(p: Seq<char>, a: Seq<char>, b: Seq<char>)
    ensures
        text_lt(p + a, p + b) == text_lt(a, b),
    decreases p.len(),
{
    if p.len() > 0 {
        assert((p + a).drop_first() =~= p.drop_first() + a);
        assert((p + b).drop_first() =~= p.drop_first() + b);
        law_text_order_common_prefix(p.drop_first(), a, b);
    } else {
        assert(p + a =~= a);
        assert(p + b =~= b);
    }
}

/// A proper prefix comes before the longer text.
pub proof fn law_text_order_prefix_first(a: Seq<char>, b: Seq<char>)
    requires
        b.len() > 0,
    ensures
        text_lt(a, a + b),
        !text_lt(a + b, a),
{
    law_text_order_common_prefix(a, Seq::empty(), b);
    law_text_order_common_prefix(a, b, Seq::empty());
    assert(a + Seq::<char>::empty() =~= a);
}

/// The last line shown for match `m`: its context line after, if it has
/// one, else the matching line itself.
pub open spec fn last_line_shown(m: MatchView) -> nat {
    if m.context_after is Some {
        m.line_num + 1
    } else {
        m.line_num
    }
}

/// Rows from `base` on, after a row for line `last`, show every match and
/// the context line before each, unless that line was just shown.
proof fn lemma_rows_show_context(ms: Seq<MatchView>, base: nat, last: Option<nat>)
    ensures
        forall|k: int|
            0 <= k < ms.len() ==> rows_from(ms, base, last).contains(
                Row { kind: RowKind::Hit, line_num: (#[trigger] ms[k]).line_num as usize, index: (base + k) as usize },
            ),
        forall|k: int|
            0 <= k < ms.len() && (#[trigger] ms[k]).context_before is Some && ms[k].line_num > 0 ==> {
                ||| rows_from(ms, base, last).contains(
                    Row { kind: RowKind::Before, line_num: (ms[k].line_num - 1) as usize, index: (base + k) as usize },
                )
                ||| (k == 0 && last == Some((ms[k].line_num - 1) as nat))
                ||| (k > 0 && last_line_shown(ms[k - 1]) == ms[k].line_num - 1)
            },
    decreases ms.len(),
{
    if ms.len() > 0 {
        let m = ms[0];
        let rest = ms.drop_first();
        let next = Some(last_line_shown(m));
        lemma_rows_show_context(rest, base + 1, next);
        let before_num: nat = if m.line_num > 0 { (m.line_num - 1) as nat } else { 0 };
        let before = if m.context_before is Some && last != Some(before_num) {
            seq![Row { kind: RowKind::Before, line_num: before_num as usize, index: base as usize }]
        } else {
            seq![]
        };
        let hit = seq![Row { kind: RowKind::Hit, line_num: m.line_num as usize, index: base as usize }];
        let after = if m.context_after is Some {
            seq![Row { kind: RowKind::After, line_num: (m.line_num + 1) as usize, index: base as usize }]
        } else {
            seq![]
        };
        let tail = rows_from(rest, base + 1, next);
        let rows = rows_from(ms, base, last);
        assert(rows == before + hit + after + tail);
        assert forall|k: int| 0 <= k < ms.len() implies rows.contains(
            Row { kind: RowKind::Hit, line_num: (#[trigger] ms[k]).line_num as usize, index: (base + k) as usize },
        ) by {
            if k == 0 {
                assert(rows[before.len() as int] == hit[0]);
            } else {
                assert(rest[k - 1] == ms[k]);
                let r = Row { kind: RowKind::Hit, line_num: ms[k].line_num as usize, index: (base + k) as usize };
                assert(tail.contains(r));
                let j = choose|j: int| 0 <= j < tail.len() && tail[j] == r;
                assert(rows[(before.len() + hit.len() + after.len() + j) as int] == r);
            }
        }
        assert forall|k: int|
            0 <= k < ms.len() && (#[trigger] ms[k]).context_before is Some && ms[k].line_num > 0 implies {
                ||| rows.contains(
                    Row { kind: RowKind::Before, line_num: (ms[k].line_num - 1) as usize, index: (base + k) as usize },
                )
                ||| (k == 0 && last == Some((ms[k].line_num - 1) as nat))
                ||| (k > 0 && last_line_shown(ms[k - 1]) == ms[k].line_num - 1)
            } by {
            if k == 0 {
                if last != Some(before_num) {
                    assert(rows[0] == before[0]);
                }
            } else {
                assert(rest[k - 1] == ms[k]);
                let r = Row { kind: RowKind::Before, line_num: (ms[k].line_num - 1) as usize, index: (base + k) as usize };
                if tail.contains(r) {
                    let j = choose|j: int| 0 <= j < tail.len() && tail[j] == r;
                    assert(rows[(before.len() + hit.len() + after.len() + j) as int] == r);
                } else if k - 1 > 0 {
                    assert(rest[k - 2] == ms[k - 1]);
                }
            }
        }
    }
}

/// Every shown match has its row, and its context line before is shown with
/// it unless the rows of the match before already end on that line.
pub proof fn law_rows_show_context(ms: Seq<MatchView>)
    ensures
        forall|k: int|
            0 <= k < ms.len() ==> rows_from(ms, 0, None).contains(
                Row { kind: RowKind::Hit, line_num: (#[trigger] ms[k]).line_num as usize, index: k as usize },
            ),
        forall|k: int|
            0 <= k < ms.len() && (#[trigger] ms[k]).context_before is Some && ms[k].line_num > 0 ==> {
                ||| rows_from(ms, 0, None).contains(
                    Row { kind: RowKind::Before, line_num: (ms[k].line_num - 1) as usize, index: k as usize },
                )
                ||| (k > 0 && last_line_shown(ms[k - 1]) == ms[k].line_num - 1)
            },
{
    lemma_rows_show_context(ms, 0, None);
}

} // verus!
