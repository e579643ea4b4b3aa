use stash::retention::{is_log_name, rotation_plan, DEFAULT_RETAIN};
use stash::stamp::Stamp;
use stash::tee::{Tee, TeeAction, TeeEvent};

fn names(list: &[&str]) -> Vec<Vec<u8>> {
    list.iter().map(|n| n.as_bytes().to_vec()).collect()
}

fn log_count(dir: &[Vec<u8>]) -> usize {
    dir.iter().filter(|n| is_log_name(n)).count()
}

/// One rotation pass over an in-memory directory: every planned deletion
/// succeeds.
fn rotate(dir: &mut Vec<Vec<u8>>, retain: usize) -> Vec<Vec<u8>> {
    let plan = rotation_plan(dir, retain);
    for name in &plan {
        let at = dir.iter().position(|n| n == name).expect("the plan names files of the listing");
        dir.remove(at);
    }
    plan
}

/// One captured invocation on an in-memory directory.
fn invoke(dir: &mut Vec<Vec<u8>>, retain: usize, created: &[u8]) {
    rotate(dir, retain);
    if !dir.iter().any(|n| n == created) {
        dir.push(created.to_vec());
    }
}

fn nth_name(n: u32) -> Vec<u8> {
    let s = Stamp {
        year: 2025,
        month: 1 + n / 1000 % 12,
        day: 1,
        hour: n / 100 % 10,
        minute: n / 10 % 10,
        second: n % 10,
        millis: 0,
    };
    s.log_file_name().expect("a valid time")
}

/// What a broadcaster writes to the log for `stream`, read in one chunk.
fn logged(stream: &[u8]) -> Vec<u8> {
    let mut tee = Tee::new();
    let mut log = Vec::new();
    let mut sent = false;
    let mut action = tee.awaited();
    loop {
        let event = match action {
            TeeAction::Read if !sent => {
                sent = true;
                TeeEvent::Data(stream.to_vec())
            }
            TeeAction::Read => TeeEvent::EndOfStream,
            TeeAction::WriteTerminal(_) => TeeEvent::Written,
            TeeAction::WriteLog(unit) => {
                log.extend_from_slice(&unit);
                TeeEvent::Written
            }
            TeeAction::Finish => return log,
        };
        action = tee.step(event);
    }
}

#[test]
fn default_retention_is_twenty() {
    assert_eq!(DEFAULT_RETAIN, 20);
}

#[test]
fn log_names_end_in_dot_log() {
    assert!(is_log_name(b"a.log"));
    assert!(is_log_name(b"20250712-153045.123.log"));
    assert!(is_log_name(b"notes.txt.log"));
    assert!(is_log_name(b"..log"));
    assert!(is_log_name(b" .log"));
}

#[test]
fn other_names_are_no_logs() {
    assert!(!is_log_name(b""));
    assert!(!is_log_name(b"log"));
    assert!(!is_log_name(b".log"));
    assert!(!is_log_name(b"alog"));
    assert!(!is_log_name(b"a.LOG"));
    assert!(!is_log_name(b"a.Log"));
    assert!(!is_log_name(b"a.log.txt"));
    assert!(!is_log_name(b"a.logs"));
    assert!(!is_log_name(b"a.log "));
    assert!(!is_log_name(b"a.lo"));
    assert!(!is_log_name(b"a_log"));
}

#[test]
fn rotation_deletes_nothing_within_the_limit() {
    let listing = names(&["b.log", "a.log", "c.log"]);
    assert_eq!(rotation_plan(&listing, 3), Vec::<Vec<u8>>::new());
    assert_eq!(rotation_plan(&listing, 4), Vec::<Vec<u8>>::new());
    assert_eq!(rotation_plan(&listing, usize::MAX), Vec::<Vec<u8>>::new());
    assert_eq!(rotation_plan(&Vec::new(), 0), Vec::<Vec<u8>>::new());
}

#[test]
fn rotation_deletes_the_oldest_beyond_the_limit_oldest_first() {
    let listing = names(&["d.log", "b.log", "e.log", "a.log", "c.log"]);
    assert_eq!(rotation_plan(&listing, 2), names(&["a.log", "b.log", "c.log"]));
    assert_eq!(rotation_plan(&listing, 4), names(&["a.log"]));
}

#[test]
fn rotation_with_no_retention_deletes_every_log() {
    let listing = names(&["b.log", "keep.txt", "a.log"]);
    assert_eq!(rotation_plan(&listing, 0), names(&["a.log", "b.log"]));
}

#[test]
fn rotation_passes_over_files_that_are_no_logs() {
    let listing = names(&["0.txt", "b.log", ".log", "a.log", "README", "c.log", "0.log.bak"]);
    assert_eq!(rotation_plan(&listing, 1), names(&["a.log", "b.log"]));
    assert_eq!(rotation_plan(&listing, 3), Vec::<Vec<u8>>::new());
}

#[test]
fn rotation_counts_a_name_as_often_as_it_is_listed() {
    let listing = names(&["b.log", "a.log", "a.log"]);
    assert_eq!(rotation_plan(&listing, 1), names(&["a.log", "a.log"]));
    assert_eq!(rotation_plan(&listing, 2), names(&["a.log"]));
}

#[test]
fn rotation_orders_names_by_bytes_not_by_length() {
    let listing = names(&["10.log", "9.log", "100.log"]);
    assert_eq!(rotation_plan(&listing, 0), names(&["10.log", "100.log", "9.log"]));
}

#[test]
fn rotation_leaves_at_most_the_limit() {
    for retain in 0..6 {
        for present in 0..9u32 {
            let mut dir: Vec<Vec<u8>> = (0..present).map(nth_name).collect();
            dir.push(b"notes.txt".to_vec());
            let plan = rotate(&mut dir, retain);
            assert_eq!(plan.len(), (present as usize).saturating_sub(retain));
            assert_eq!(log_count(&dir), (present as usize).min(retain));
            assert!(dir.contains(&b"notes.txt".to_vec()));
        }
    }
}

#[test]
fn invocations_keep_the_logs_within_one_of_the_limit() {
    for retain in 1..5 {
        let mut dir: Vec<Vec<u8>> = Vec::new();
        for n in 0..12u32 {
            let before = log_count(&dir);
            invoke(&mut dir, retain, &nth_name(n));
            assert_eq!(log_count(&dir), before.min(retain) + 1);
            assert!(log_count(&dir) <= retain + 1);
            if before < retain {
                assert!(log_count(&dir) <= retain);
            }
            assert!(dir.contains(&nth_name(n)));
        }
    }
}

#[test]
fn invocation_that_reuses_a_kept_name_adds_no_file() {
    let mut dir = names(&["a.log", "b.log"]);
    invoke(&mut dir, 2, b"b.log");
    assert_eq!(dir, names(&["a.log", "b.log"]));
}

#[test]
fn three_runs_with_retention_two() {
    let retain = 2;
    let mut dir: Vec<Vec<u8>> = Vec::new();
    let mut contents: Vec<(Vec<u8>, Vec<u8>)> = Vec::new();
    for n in 0..3u32 {
        let name = nth_name(n);
        invoke(&mut dir, retain, &name);
        contents.push((name, logged(b"hello\n")));
    }
    // The pass runs before the new file is made, so the third run still
    // finds two logs and deletes none.
    assert_eq!(dir, vec![nth_name(0), nth_name(1), nth_name(2)]);
    for (_, content) in &contents {
        assert_eq!(content, b"hello\n");
    }
    // The next pass brings the directory back to two: the oldest goes.
    assert_eq!(rotate(&mut dir, retain), vec![nth_name(0)]);
    assert_eq!(dir, vec![nth_name(1), nth_name(2)]);
}

#[test]
fn a_deletion_that_fails_does_not_stop_the_pass() {
    let mut dir = names(&["c.log", "a.log", "d.log", "b.log"]);
    let plan = rotation_plan(&dir, 1);
    assert_eq!(plan, names(&["a.log", "b.log", "c.log"]));
    // "b.log" cannot be deleted; the pass goes on with the next name.
    for name in &plan {
        if name.as_slice() != b"b.log" {
            let at = dir.iter().position(|n| n == name).expect("listed");
            dir.remove(at);
        }
    }
    assert_eq!(dir, names(&["d.log", "b.log"]));
    // The file that was left is the first to go in the next pass.
    assert_eq!(rotation_plan(&dir, 1), names(&["b.log"]));
}

#[test]
fn files_named_like_logs_are_rotated_like_logs() {
    let listing = names(&["20250101-000000.000.log", "000-mine.log", "zzz.log"]);
    assert_eq!(rotation_plan(&listing, 2), names(&["000-mine.log"]));
}
