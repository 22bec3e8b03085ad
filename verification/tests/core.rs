use eget_inventory::app::{App, InputMode};
use eget_inventory::log::{mark_removed_text, parse_log, InstallEntry, Timestamp};

fn entry(secs: i64, repo: &str, path: &str) -> InstallEntry {
    InstallEntry {
        timestamp: Timestamp { secs, nanos: 0 },
        repo: repo.to_string(),
        path: path.to_string(),
        removed: false,
        size: None,
    }
}

fn sample_entries() -> Vec<InstallEntry> {
    vec![
        entry(300, "owner/ripgrep", "/usr/local/bin/rg"),
        entry(200, "owner/fd", "/usr/local/bin/fd"),
        entry(100, "other/Bat", "/home/user/.local/bin/bat"),
    ]
}

#[test]
fn filter_empty_identity() {
    let mut app = App::new(sample_entries());
    app.filter_input = String::new();
    app.apply_filter();
    assert_eq!(app.filtered_entries, vec![0, 1, 2]);
}

#[test]
fn filter_matches_name_repo_and_path() {
    // Matches the file name.
    let mut app = App::new(sample_entries());
    app.filter_input = "rg".to_string();
    app.apply_filter();
    assert_eq!(app.filtered_entries, vec![0]);

    // Matches the repo.
    let mut app = App::new(sample_entries());
    app.filter_input = "owner/".to_string();
    app.apply_filter();
    assert_eq!(app.filtered_entries, vec![0, 1]);

    // Matches only the directory part of the path.
    let mut app = App::new(sample_entries());
    app.filter_input = "home".to_string();
    app.apply_filter();
    assert_eq!(app.filtered_entries, vec![2]);

    // Matches nothing.
    let mut app = App::new(sample_entries());
    app.filter_input = "zzz".to_string();
    app.apply_filter();
    assert!(app.filtered_entries.is_empty());
    assert_eq!(app.selected, 0);
    assert!(app.current().is_none());
}

#[test]
fn filter_is_case_insensitive() {
    // An upper-case filter against a lower-case field: if lower-casing
    // were skipped on either side this would select nothing.
    let mut app = App::new(sample_entries());
    app.filter_input = "FD".to_string();
    app.apply_filter();
    assert_eq!(app.filtered_entries, vec![1]);

    // A lower-case filter against an upper-case field.
    let mut app = App::new(sample_entries());
    app.filter_input = "bat".to_string();
    app.apply_filter();
    assert_eq!(app.filtered_entries, vec![2]);
}

#[test]
fn cursor_next_wraps() {
    let mut app = App::new(sample_entries());
    app.next();
    assert_eq!(app.selected, 1);
    for _ in 0..3 {
        app.next();
    }
    assert_eq!(app.selected, 1);
}

#[test]
fn cursor_prev_wraps() {
    let mut app = App::new(sample_entries());
    app.prev();
    assert_eq!(app.selected, 2);
    for _ in 0..3 {
        app.prev();
    }
    assert_eq!(app.selected, 2);
}

#[test]
fn cursor_noop_when_empty() {
    let mut app = App::new(Vec::new());
    app.next();
    assert_eq!(app.selected, 0);
    app.prev();
    assert_eq!(app.selected, 0);
    assert!(app.current().is_none());
}

#[test]
fn cursor_clamped_after_filter() {
    let mut app = App::new(sample_entries());
    app.prev(); // cursor on the last entry
    assert_eq!(app.selected, 2);
    app.filter_input = "owner/".to_string();
    app.apply_filter(); // two entries remain
    assert_eq!(app.selected, 1);
    app.filter_input = "zzz".to_string();
    app.apply_filter(); // nothing remains
    assert_eq!(app.selected, 0);
    app.filter_input = String::new();
    app.apply_filter(); // full reset
    assert_eq!(app.filtered_entries, vec![0, 1, 2]);
    assert_eq!(app.selected, 0);
}

#[test]
fn current_and_visible_follow_filter() {
    let mut app = App::new(sample_entries());
    app.filter_input = "owner/".to_string();
    app.apply_filter();
    let visible = app.visible_entries();
    assert_eq!(visible.len(), 2);
    assert_eq!(visible[0].repo, "owner/ripgrep");
    assert_eq!(visible[1].repo, "owner/fd");
    app.next();
    let current = app.current().expect("a current entry");
    assert_eq!(current.repo, "owner/fd");
}

#[test]
fn mark_removed_appends_marker_once() {
    let log = "2024-01-02T03:04:05Z\towner/rg\t/usr/local/bin/rg\n\
               2024-01-01T00:00:00Z\towner/fd\t/usr/local/bin/fd";
    let once = mark_removed_text(log, "/usr/local/bin/rg");
    assert_eq!(
        once,
        "2024-01-02T03:04:05Z\towner/rg\t/usr/local/bin/rg\tremoved\n\
         2024-01-01T00:00:00Z\towner/fd\t/usr/local/bin/fd"
    );
}

#[test]
fn mark_removed_is_idempotent() {
    let log = "2024-01-02T03:04:05Z\towner/rg\t/usr/local/bin/rg\n\
               2024-01-01T00:00:00Z\towner/fd\t/usr/local/bin/fd\n\
               short line";
    let once = mark_removed_text(log, "/usr/local/bin/fd");
    let twice = mark_removed_text(&once, "/usr/local/bin/fd");
    assert_eq!(once, twice);
    assert!(once.contains("/usr/local/bin/fd\tremoved"));
}

#[test]
fn mark_removed_leaves_other_lines_alone() {
    let log = "2024-01-01T00:00:00Z\ta/b\t/bin/one\tremoved\n\
               not\ta\tmatch\n\
               2024-01-01T00:00:00Z\ta/b\t/bin/two";
    let rewritten = mark_removed_text(log, "/bin/zzz");
    assert_eq!(rewritten, log);
}

#[test]
fn size_human_formats_bytes_and_units() {
    let mut e = entry(0, "a/b", "/bin/x");
    e.size = Some(0);
    assert_eq!(e.size_human(), "0 B");
    e.size = Some(1023);
    assert_eq!(e.size_human(), "1023 B");
    e.size = Some(1536);
    assert_eq!(e.size_human(), "1.5 KB");
    e.size = Some(1_572_864);
    assert_eq!(e.size_human(), "1.5 MB");
    e.size = Some(2_147_483_648);
    assert_eq!(e.size_human(), "2.0 GB");
    e.size = None;
    assert_eq!(e.size_human(), "N/A");
}

#[test]
fn size_human_largest_size() {
    let mut e = entry(0, "a/b", "/bin/x");
    e.size = Some(u64::MAX);
    assert_eq!(e.size_human(), "17179869184.0 GB");
}

#[test]
fn size_human_rounds_half_up() {
    let mut e = entry(0, "a/b", "/bin/x");
    e.size = Some(1945); // 1.8995 KiB
    assert_eq!(e.size_human(), "1.9 KB");
    e.size = Some(2047); // 1.999 KiB
    assert_eq!(e.size_human(), "2.0 KB");
}

#[test]
fn parse_log_end_to_end() {
    // One malformed line, one removed entry, one normal entry.
    let log = "garbage line without tabs\n\
               2024-01-01T00:00:00Z\towner/fd\t/usr/local/bin/fd\tremoved\n\
               2024-06-01T12:00:00Z\towner/rg\t/usr/local/bin/rg";
    let entries = parse_log(log);
    assert_eq!(entries.len(), 2);
    // Most recent first.
    assert_eq!(entries[0].repo, "owner/rg");
    assert!(!entries[0].removed);
    assert_eq!(entries[1].repo, "owner/fd");
    assert!(entries[1].removed);
    assert_eq!(entries[1].size, None);

    // The removed entry stays filterable and visible.
    let mut app = App::new(entries);
    app.filter_input = "fd".to_string();
    app.apply_filter();
    let visible = app.visible_entries();
    assert_eq!(visible.len(), 1);
    assert!(visible[0].removed);
    assert_eq!(visible[0].repo, "owner/fd");
}

#[test]
fn parse_log_sorts_descending_with_stable_ties() {
    // The two middle lines denote the same instant in different offsets;
    // they must keep their file order.
    let log = "2024-01-01T00:00:00Z\tfirst/a\t/bin/a\n\
               2024-03-01T10:00:00+01:00\ttie/one\t/bin/b\n\
               2024-03-01T09:00:00Z\ttie/two\t/bin/c\n\
               2024-05-01T00:00:00Z\tlast/d\t/bin/d";
    let entries = parse_log(log);
    assert_eq!(entries.len(), 4);
    assert_eq!(entries[0].repo, "last/d");
    assert_eq!(entries[1].repo, "tie/one");
    assert_eq!(entries[2].repo, "tie/two");
    assert_eq!(entries[1].timestamp, entries[2].timestamp);
    assert_eq!(entries[3].repo, "first/a");
}

#[test]
fn parse_log_skips_bad_lines() {
    let log = "\n\
               only\ttwo fields\n\
               not-a-date\towner/x\t/bin/x\n\
               2024-01-01T00:00:00Z\towner/y\t/bin/y\tsomething-else\n\
               2024-01-01T00:00:00Z\towner/z\t/bin/z";
    let entries = parse_log(log);
    assert_eq!(entries.len(), 2);
    // An unknown fourth field is ignored: the record is kept, not removed.
    assert!(!entries[0].removed);
    assert!(!entries[1].removed);
}

#[test]
fn parse_log_empty_text() {
    let entries = parse_log("");
    assert!(entries.is_empty());
    let app = App::new(entries);
    assert!(app.current().is_none());
    assert_eq!(app.input_mode, InputMode::Normal);
}
