use duplicate_finder::scanner::{admits_size, enters, is_hidden, reports_progress};

#[test]
fn dot_names_are_hidden() {
    assert!(is_hidden(Some(".hidden.bin")));
    assert!(is_hidden(Some(".hidden-dir")));
    assert!(!is_hidden(Some("visible.bin")));
    assert!(!is_hidden(Some("")));
    assert!(!is_hidden(None));
}

#[test]
fn hidden_entries_are_skipped_unless_wanted() {
    assert!(!enters(false, 1, true));
    assert!(enters(true, 1, true));
    assert!(enters(false, 3, false));
}

#[test]
fn a_dotted_scan_root_is_entered() {
    assert!(enters(false, 0, true));
}

#[test]
fn files_below_the_minimum_size_are_dropped() {
    assert!(!admits_size(10, 50));
    assert!(admits_size(100, 50));
    assert!(admits_size(50, 50));
    assert!(admits_size(0, 0));
}

#[test]
fn progress_is_reported_every_hundred_files() {
    assert!(reports_progress(100));
    assert!(reports_progress(300));
    assert!(!reports_progress(99));
    assert!(!reports_progress(101));
}
