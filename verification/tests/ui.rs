//! What is shown of a running copy.
use icehorn::time::{Moment, Span};
use icehorn::ui::copy::State;
use icehorn::ui::event::CopyEvent;
use icehorn::ui::format::{
    format_elapsed, format_rate, format_size, lifetime_rate, spinner_frame, truncate,
};
use icehorn::ui::reporter::Reporter;
use icehorn::ui::rows::{
    can_head, can_show, can_summarise, file_row, header_line, is_quit_key, listed_tables,
    status_text, summary, table_row, FileRow, Key, TableBar, TableRow, LOG_LINES, MAX_FILE_ROWS,
    MAX_TABLE_ROWS, VIEWPORT_HEIGHT,
};

fn now(secs: u64) -> Moment {
    Moment::at(Span::from_secs(secs))
}

fn apply(state: &mut State, event: CopyEvent) {
    assert!(state.can_apply(&event));
    state.apply(event, now(10));
}

fn start_table(state: &mut State, key: &str, namespace: &str, table: &str) {
    apply(
        state,
        CopyEvent::TableStarted { key: key.into(), namespace: namespace.into(), table: table.into() },
    );
}

fn queue(state: &mut State, key: &str, queued: u64, copied: u64, skipped: u64) {
    apply(state, CopyEvent::TableQueueChanged { key: key.into(), queued, copied, skipped });
}

#[test]
fn format_size_picks_mb_above_one_megabyte() {
    assert_eq!(format_size(0), "0.0KB");
    assert_eq!(format_size(512), "0.5KB");
    assert_eq!(format_size(1024 * 1024), "1.00MB");
    assert_eq!(format_size(2 * 1024 * 1024 + 512 * 1024), "2.50MB");
}

/// The sizes as floating point gives them.
fn float_size(bytes: u64) -> String {
    let b = bytes as f64;
    if b >= 1024.0 * 1024.0 {
        format!("{:.2}MB", b / (1024.0 * 1024.0))
    } else {
        format!("{:.1}KB", b / 1024.0)
    }
}

#[test]
fn format_size_rounds_as_floating_point_does() {
    let mut sizes = vec![1, 51, 52, 256, 768, 1023, 1280, 1048575, 1048577, 5242, 5243, 15728];
    for shift in 20..64 {
        for low in [0u64, 1, 5242, 5243, 524287, 524288, 524289] {
            sizes.push((1u64 << shift).wrapping_add(low));
            sizes.push((3u64 << (shift - 1)).wrapping_sub(low));
        }
    }
    sizes.push(u64::MAX);
    sizes.push(9007199254740993);
    for n in sizes {
        assert_eq!(format_size(n), float_size(n), "{n} bytes");
    }
}

#[test]
fn format_rate_suffixes_with_per_second_or_dashes_when_none() {
    assert_eq!(format_rate(Some(1024 * 1024)), "1.00MB/s");
    assert_eq!(format_rate(Some(512)), "0.5KB/s");
    assert_eq!(format_rate(Some(0)), "0.0KB/s");
    assert_eq!(format_rate(None), "--");
}

#[test]
fn lifetime_rate_floors_divisor_at_one_second_and_is_none_when_empty() {
    assert_eq!(
        lifetime_rate(2_000_000, Span::from_millis(0)),
        Some(2_000_000)
    );
    assert_eq!(
        lifetime_rate(2_000_000, Span::from_secs(2)),
        Some(1_000_000)
    );
    assert_eq!(lifetime_rate(0, Span::from_secs(60)), None);
}

#[test]
fn spinner_advances_and_wraps() {
    let f0 = spinner_frame(Span::from_millis(0));
    let f1 = spinner_frame(Span::from_millis(100));
    assert_ne!(f0, f1, "spinner must change between adjacent 100ms ticks");
    assert_eq!(f0, spinner_frame(Span::from_millis(1000)));
    assert_eq!(f0, '⠋');
    assert_eq!(spinner_frame(Span::from_millis(999)), '⠏');
}

#[test]
fn overall_bytes_updates_live_from_file_progress_deltas() {
    let mut state = State::new(now(0));
    apply(
        &mut state,
        CopyEvent::FileStarted {
            id: 1,
            table_key: "t".into(),
            name: "a.parquet".into(),
            total_bytes: 1_000,
        },
    );
    apply(&mut state, CopyEvent::FileProgress { id: 1, copied_bytes: 300 });
    assert_eq!(state.overall_bytes_copied, 300);

    apply(&mut state, CopyEvent::FileProgress { id: 1, copied_bytes: 1_000 });
    assert_eq!(state.overall_bytes_copied, 1_000);

    apply(&mut state, CopyEvent::FileFinished { id: 1 });
    assert_eq!(state.overall_bytes_copied, 1_000);
}

#[test]
fn progress_of_unknown_files_and_steps_back_add_nothing() {
    let mut state = State::new(now(0));
    apply(&mut state, CopyEvent::FileProgress { id: 9, copied_bytes: 300 });
    assert_eq!(state.overall_bytes_copied, 0);
    apply(
        &mut state,
        CopyEvent::FileStarted { id: 1, table_key: "t".into(), name: "a".into(), total_bytes: 10 },
    );
    apply(&mut state, CopyEvent::FileProgress { id: 1, copied_bytes: 8 });
    apply(&mut state, CopyEvent::FileProgress { id: 1, copied_bytes: 5 });
    assert_eq!(state.overall_bytes_copied, 8);
}

#[test]
fn truncate_keeps_head_and_appends_ellipsis() {
    assert_eq!(truncate("short", 10), "short");
    assert_eq!(truncate("verylongfilename", 8), "verylon…");
    assert_eq!(truncate("ab", 1), "…");
    assert_eq!(truncate("ab", 0), "…");
    assert_eq!(truncate("éé", 2), "éé");
}

#[test]
fn format_elapsed_drops_hours_when_under_one() {
    assert_eq!(format_elapsed(Span::from_secs(0)), "00:00");
    assert_eq!(format_elapsed(Span::from_secs(65)), "01:05");
    assert_eq!(format_elapsed(Span::from_secs(3725)), "1:02:05");
    assert_eq!(format_elapsed(Span::from_millis(59_999)), "00:59");
}

#[test]
fn featured_table_picks_smallest_active_queue() {
    let mut state = State::new(now(0));
    start_table(&mut state, "a", "ns-a", "t-a");
    start_table(&mut state, "b", "ns-b", "t-b");
    queue(&mut state, "a", 100, 0, 0);
    queue(&mut state, "b", 5, 0, 0);
    let featured = state.featured_table().unwrap();
    assert_eq!(featured.table, "t-b");

    apply(&mut state, CopyEvent::TableFinished { key: "b".into() });
    assert_eq!(state.featured_table().unwrap().table, "t-a");
}

#[test]
fn totals_are_sums_over_the_tables() {
    let mut state = State::new(now(0));
    start_table(&mut state, "a", "n", "t-a");
    start_table(&mut state, "b", "n", "t-b");
    queue(&mut state, "a", 10, 1, 2);
    queue(&mut state, "b", 20, 3, 4);
    assert_eq!(state.overall_queued, 30);
    assert_eq!(state.overall_copied, 4);
    assert_eq!(state.overall_skipped, 6);
    queue(&mut state, "a", 9, 2, 2);
    assert_eq!(state.overall_queued, 29);
    let too_many = CopyEvent::TableQueueChanged {
        key: "a".into(),
        queued: u64::MAX,
        copied: 0,
        skipped: 0,
    };
    assert!(!state.can_apply(&too_many));
}

#[test]
fn header_names_the_featured_table() {
    let mut state = State::new(now(0));
    assert!(can_head(&state));
    let empty = header_line(&state, Span::from_secs(5));
    assert_eq!(empty.namespace, "—");
    assert_eq!(empty.table, "—");
    assert_eq!(empty.elapsed, "00:05");
    assert_eq!(empty.totals, "  ·  0/0 files  ·  0.0KB copied  ·  --");
    start_table(&mut state, "a", "ns", "t-a");
    queue(&mut state, "a", 10, 1, 2);
    let head = header_line(&state, Span::from_secs(3725));
    assert_eq!(head.namespace, "ns");
    assert_eq!(head.table, "t-a");
    assert_eq!(head.totals, "  ·  3/13 files  ·  0.0KB copied  ·  --");
}

#[test]
fn status_of_the_table_comes_before_the_general_one() {
    let mut state = State::new(now(0));
    assert_eq!(status_text(&state), "");
    apply(&mut state, CopyEvent::GlobalStatus { message: Some("discovering".into()) });
    assert_eq!(status_text(&state), "discovering");
    start_table(&mut state, "a", "ns", "t-a");
    assert_eq!(status_text(&state), "discovering");
    apply(&mut state, CopyEvent::TableStatus { key: "a".into(), message: Some("copying".into()) });
    assert_eq!(status_text(&state), "copying");
    apply(&mut state, CopyEvent::TableFinished { key: "a".into() });
    apply(&mut state, CopyEvent::GlobalStatus { message: None });
    assert_eq!(status_text(&state), "");
}

#[test]
fn rows_fit_their_width() {
    let mut state = State::new(now(0));
    start_table(&mut state, "a", "ns", "t-a");
    apply(
        &mut state,
        CopyEvent::FileStarted {
            id: 1,
            table_key: "a".into(),
            name: "a-rather-long-name.parquet".into(),
            total_bytes: 2048,
        },
    );
    apply(&mut state, CopyEvent::FileProgress { id: 1, copied_bytes: 1024 });
    match file_row(&state.files[0], 80) {
        FileRow::Full { layout, name, size_label } => {
            assert_eq!((layout.name, layout.bar, layout.label), (16, 40, 22));
            assert_eq!(name, "a-rather-long-n…");
            assert_eq!(size_label, "         1.0KB / 2.0KB");
        }
        FileRow::Name(_) => panic!("there is room"),
    }
    assert!(matches!(file_row(&state.files[0], 19), FileRow::Name(n) if n == "a-rather-long-name.parquet"));

    assert!(can_show(&state.tables[0].1));
    match table_row(&state.tables[0].1, 40) {
        TableRow::Full { layout, name, bar, count_label } => {
            assert_eq!((layout.name, layout.bar, layout.label), (10, 10, 18));
            assert_eq!(name, "t-a");
            assert!(matches!(bar, TableBar::Status(s) if s == "(starting)"));
            assert_eq!(count_label, "");
        }
        TableRow::Name(_) => panic!("there is room"),
    }
    queue(&mut state, "a", 3, 1, 1);
    match table_row(&state.tables[0].1, 100) {
        TableRow::Full { layout, bar, count_label, .. } => {
            assert_eq!((layout.name, layout.bar, layout.label), (20, 60, 18));
            assert!(matches!(bar, TableBar::Progress { done: 2, total: 5 }));
            assert_eq!(count_label, "               2/5");
        }
        TableRow::Name(_) => panic!("there is room"),
    }
    assert!(matches!(table_row(&state.tables[0].1, 29), TableRow::Name(n) if n == "t-a"));
    assert_eq!(VIEWPORT_HEIGHT, 2 + LOG_LINES + MAX_TABLE_ROWS + MAX_FILE_ROWS);
}

#[test]
fn tables_are_listed_by_label() {
    let mut state = State::new(now(0));
    start_table(&mut state, "1", "n", "c");
    start_table(&mut state, "2", "n", "a");
    start_table(&mut state, "3", "n", "b");
    assert_eq!(listed_tables(&state), vec![1, 2, 0]);
    apply(&mut state, CopyEvent::TableFinished { key: "3".into() });
    assert_eq!(listed_tables(&state), vec![1, 0]);
}

#[test]
fn summary_of_a_finished_copy() {
    let mut state = State::new(now(0));
    assert_eq!(
        summary(&state, Span::from_secs(2)),
        vec![
            "",
            "Copy summary",
            "  Elapsed : 00:02",
            "  Tables  : 0",
            "  Files   : 0 copied, 0 skipped (0 total)",
            "  Bytes   : 0.0KB transferred (--)",
        ]
    );
    start_table(&mut state, "1", "n", "zeta");
    start_table(&mut state, "2", "n", "alpha");
    queue(&mut state, "1", 0, 5, 1);
    queue(&mut state, "2", 0, 1, 0);
    apply(
        &mut state,
        CopyEvent::FileStarted { id: 1, table_key: "1".into(), name: "a".into(), total_bytes: 4096 },
    );
    apply(&mut state, CopyEvent::FileProgress { id: 1, copied_bytes: 4096 });
    assert!(can_summarise(&state));
    assert_eq!(
        summary(&state, Span::from_secs(2))[4..],
        [
            "  Files   : 6 copied, 1 skipped (7 total)",
            "  Bytes   : 4.0KB transferred (2.0KB/s)",
            "",
            "Tables:",
            "  alpha  1 copied, 0 skipped (1 total)",
            "  zeta  5 copied, 1 skipped (6 total)",
        ]
    );
}

#[test]
fn rate_is_sampled_on_refresh() {
    let mut state = State::new(now(0));
    apply(
        &mut state,
        CopyEvent::FileStarted { id: 1, table_key: "1".into(), name: "a".into(), total_bytes: 4096 },
    );
    apply(&mut state, CopyEvent::FileProgress { id: 1, copied_bytes: 4096 });
    state.refresh_speed(now(12));
    assert_eq!(state.cached_bytes_per_sec, Some(2048));
}

#[test]
fn quit_keys() {
    assert!(is_quit_key(Key::Char('q'), false));
    assert!(is_quit_key(Key::Char('c'), true));
    assert!(!is_quit_key(Key::Char('c'), false));
    assert!(!is_quit_key(Key::Char('x'), true));
    assert!(is_quit_key(Key::Esc, false));
    assert!(!is_quit_key(Key::Other, true));
}

#[test]
fn plain_reporter_says_nothing() {
    let mut plain = Reporter::plain();
    assert!(!plain.is_active());
    assert!(plain.table_started("k", "n", "t").is_none());
    assert!(plain.global_status("x").is_none());
    assert!(plain.file_started("k", "f", 1).1.is_none());
    assert!(plain.done().is_none());
}

#[test]
fn reporter_numbers_files() {
    let mut reporter = Reporter::channel();
    assert!(reporter.is_active());
    let (a, started) = reporter.file_started("k", "f", 7);
    assert!(matches!(
        started,
        Some(CopyEvent::FileStarted { id: 1, total_bytes: 7, ref name, ref table_key })
            if name == "f" && table_key == "k"
    ));
    let (b, _) = reporter.file_started("k", "g", 7);
    assert_eq!((a, b), (1, 2));
    assert!(matches!(
        reporter.file_progress(b, 3),
        Some(CopyEvent::FileProgress { id: 2, copied_bytes: 3 })
    ));
    assert!(matches!(reporter.file_finished(a), Some(CopyEvent::FileFinished { id: 1 })));
    assert!(matches!(
        reporter.table_queue_changed("k", 1, 2, 3),
        Some(CopyEvent::TableQueueChanged { queued: 1, copied: 2, skipped: 3, .. })
    ));
    assert!(matches!(
        reporter.table_status("k", "m"),
        Some(CopyEvent::TableStatus { message: Some(m), .. }) if m == "m"
    ));
    assert!(matches!(
        reporter.clear_global_status(),
        Some(CopyEvent::GlobalStatus { message: None })
    ));
    assert!(matches!(reporter.table_finished("k"), Some(CopyEvent::TableFinished { key }) if key == "k"));
    assert!(matches!(reporter.done(), Some(CopyEvent::Done)));
    assert!(matches!(reporter.send(CopyEvent::Done), Some(CopyEvent::Done)));
}
