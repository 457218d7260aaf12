use rust_seek::sync_rules::{default_excludes, flush_due, ExcludeSet, SyncConfig};

#[test]
fn default_exclusions_are_listed() {
    let d = default_excludes();
    assert_eq!(
        d,
        vec![".git", ".svn", ".hg", "node_modules", "__pycache__", "target", ".DS_Store", "Thumbs.db", "*.tmp", "*.swp"]
    );
}

#[test]
fn excluded_segments_and_extensions() {
    let set = ExcludeSet::new(&default_excludes());
    assert!(set.matches(".git"));
    assert!(set.matches("src/.git/config"));
    assert!(set.matches("node_modules/pkg/index.js"));
    assert!(set.matches("a/b/file.tmp"));
    assert!(set.matches("notes.swp"));
    assert!(!set.matches("src/main.rs"));
    assert!(!set.matches("targets/out"));
    assert!(!set.matches(".tmp"));
    assert!(!set.matches("file.tmp.bak"));
    assert!(!set.matches(""));
}

#[test]
fn custom_exclusions() {
    let set = ExcludeSet::new(&["build".to_string(), "*.o".to_string(), "*.".to_string()]);
    assert!(set.matches("proj/build/x"));
    assert!(set.matches("main.o"));
    assert!(set.matches("weird."));
    assert!(!set.matches("main.c"));
}

#[test]
fn empty_exclusions_exclude_nothing() {
    let set = ExcludeSet::new(&[]);
    assert!(!set.matches("anything/at/all.tmp"));
}

#[test]
fn default_config_is_empty() {
    let c = SyncConfig::default();
    assert!(c.src.is_empty());
    assert!(c.dst.is_empty());
    assert!(!c.delete_removed);
    assert!(c.excludes.is_empty());
}

#[test]
fn pending_state_is_written_after_three_seconds() {
    assert!(!flush_due(false, 100));
    assert!(!flush_due(true, 2));
    assert!(flush_due(true, 3));
    assert!(flush_due(true, 60));
}

#[test]
fn more_patterns_never_unexclude() {
    let few = ExcludeSet::new(&["target".to_string()]);
    let more = ExcludeSet::new(&["*.tmp".to_string(), "node_modules".to_string(), "target".to_string()]);
    for rel in ["target/x.rs", "a/target", "src/main.rs"] {
        if few.matches(rel) {
            assert!(more.matches(rel));
        }
    }
    assert!(more.matches("a/b.tmp"));
    let swapped = ExcludeSet::new(&["target".to_string(), "node_modules".to_string(), "*.tmp".to_string()]);
    for rel in ["target/x.rs", "a/b.tmp", "src/main.rs", "node_modules/y"] {
        assert_eq!(swapped.matches(rel), more.matches(rel));
    }
}
