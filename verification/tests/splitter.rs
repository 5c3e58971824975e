use log_splitter::error::SplitError;
use log_splitter::splitter::LineAction;
use log_splitter::splitter::SplitSummary;
use log_splitter::splitter::Splitter;
use log_splitter::splitter::DEFAULT_LINES_PER_FILE;
use std::time::Duration;

fn run(lines_per_file: usize, total: usize) -> (Vec<LineAction>, Splitter) {
    let mut splitter = Splitter::new(lines_per_file).unwrap();
    let mut actions = Vec::new();
    for _ in 0..total {
        assert!(splitter.line_count() < usize::MAX);
        actions.push(splitter.on_line());
    }
    (actions, splitter)
}

#[test]
fn default_quota_is_five_thousand() {
    assert_eq!(DEFAULT_LINES_PER_FILE, 5000);
}

#[test]
fn zero_quota_is_a_configuration_error() {
    assert_eq!(Splitter::new(0).err(), Some(SplitError::ZeroLinesPerFile));
}

#[test]
fn new_splitter_has_seen_nothing() {
    let splitter = Splitter::new(7).unwrap();
    assert_eq!(splitter.lines_per_file(), 7);
    assert_eq!(splitter.line_count(), 0);
    assert_eq!(splitter.file_count(), 0);
}

#[test]
fn first_line_opens_part_one() {
    let mut splitter = Splitter::new(5).unwrap();
    assert_eq!(splitter.on_line(), LineAction { index: 1, rotate: true });
    assert_eq!(splitter.line_count(), 1);
    assert_eq!(splitter.file_count(), 1);
}

#[test]
fn rotation_comes_at_each_multiple_of_the_quota() {
    let (actions, splitter) = run(5, 12);
    let expected: Vec<LineAction> = vec![
        LineAction { index: 1, rotate: true },
        LineAction { index: 1, rotate: false },
        LineAction { index: 1, rotate: false },
        LineAction { index: 1, rotate: false },
        LineAction { index: 1, rotate: false },
        LineAction { index: 2, rotate: true },
        LineAction { index: 2, rotate: false },
        LineAction { index: 2, rotate: false },
        LineAction { index: 2, rotate: false },
        LineAction { index: 2, rotate: false },
        LineAction { index: 3, rotate: true },
        LineAction { index: 3, rotate: false },
    ];
    assert_eq!(actions, expected);
    assert_eq!(splitter.file_count(), 3);
    assert_eq!(splitter.line_count(), 12);
    assert_eq!(splitter.lines_per_file(), 5);
}

#[test]
fn quota_of_one_rotates_on_every_line() {
    let (actions, splitter) = run(1, 4);
    for (line, action) in actions.iter().enumerate() {
        assert_eq!(*action, LineAction { index: line + 1, rotate: true });
    }
    assert_eq!(splitter.file_count(), 4);
}

#[test]
fn quota_above_the_line_count_never_rotates_again() {
    let (actions, splitter) = run(usize::MAX, 6);
    assert_eq!(actions[0], LineAction { index: 1, rotate: true });
    for action in &actions[1..] {
        assert_eq!(*action, LineAction { index: 1, rotate: false });
    }
    assert_eq!(splitter.file_count(), 1);
}

#[test]
fn file_count_is_the_line_count_over_the_quota_rounded_up() {
    for quota in 1usize..=9 {
        let mut splitter = Splitter::new(quota).unwrap();
        for total in 0usize..=40 {
            assert_eq!(splitter.line_count(), total);
            assert_eq!(splitter.file_count(), (total + quota - 1) / quota);
            splitter.on_line();
        }
    }
}

#[test]
fn each_line_goes_to_the_part_of_its_number() {
    for quota in 1usize..=6 {
        let (actions, _) = run(quota, 30);
        for (line, action) in actions.iter().enumerate() {
            assert_eq!(action.index, line / quota + 1);
            assert_eq!(action.rotate, line % quota == 0);
        }
    }
}

#[test]
fn summary_reports_counts_and_time() {
    let (_, splitter) = run(5, 12);
    let summary = splitter.finish(Duration::from_millis(1500));
    assert_eq!(
        summary,
        SplitSummary { file_count: 3, line_count: 12, elapsed: Duration::from_millis(1500) }
    );
}

#[test]
fn summary_of_no_line_reports_no_part() {
    let splitter = Splitter::new(5).unwrap();
    let summary = splitter.finish(Duration::ZERO);
    assert_eq!(summary.file_count, 0);
    assert_eq!(summary.line_count, 0);
    assert_eq!(summary.elapsed, Duration::ZERO);
}

#[test]
fn finish_leaves_the_splitter_usable() {
    let mut splitter = Splitter::new(2).unwrap();
    splitter.on_line();
    let early = splitter.finish(Duration::from_secs(1));
    splitter.on_line();
    splitter.on_line();
    let late = splitter.finish(Duration::from_secs(2));
    assert_eq!((early.file_count, early.line_count), (1, 1));
    assert_eq!((late.file_count, late.line_count), (2, 3));
}
