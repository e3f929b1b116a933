use redis_replay::command::{ReplayCommand, ReplayItem};
use redis_replay::micros::Micros;
use redis_replay::replay::{count_lines, LineEvent, ReplayManager};

fn set_line() -> String {
    "1690000000.100000 [0 127.0.0.1:1] \"SET\" \"k\" \"v\"".to_string()
}

fn get_line() -> String {
    "1690000000.600000 [0 127.0.0.1:1] \"GET\" \"k\"".to_string()
}

#[test]
fn example_replay_sequence() {
    // two commands spaced 500 ms apart, one empty item, then stream end
    let mut replay = ReplayManager::new(3);
    let now0 = Micros::from_micros(5_000);

    let first = replay.step(LineEvent::Line(set_line()), now0);
    let first = match first {
        Some(ReplayItem::Command(c)) => c,
        _ => panic!("expected a scheduled command"),
    };
    // the first command is released immediately: its instant is `now`
    assert_eq!(first.at.as_micros(), 5_000);
    let cmd = first.into_command();
    assert_eq!(cmd.command().as_str(), "SET");
    assert_eq!(cmd.args(), &vec!["k".to_string(), "v".to_string()]);

    // a later `now` must not shift the schedule
    let second = replay.step(LineEvent::Line(get_line()), Micros::from_micros(900_000));
    let second = match second {
        Some(ReplayItem::Command(c)) => c,
        _ => panic!("expected a scheduled command"),
    };
    assert_eq!(second.at.as_micros(), 505_000);
    assert_eq!(second.at.as_micros() - 5_000, 500_000);
    let cmd = second.into_command();
    assert_eq!(cmd.command().as_str(), "GET");

    let third = replay.step(LineEvent::Line("OK".to_string()), Micros::from_micros(901_000));
    assert!(matches!(third, Some(ReplayItem::Empty)));

    let end = replay.step(LineEvent::Eof, Micros::from_micros(902_000));
    assert!(end.is_none());
}

#[test]
fn clock_offset_is_fixed_once() {
    let mut replay = ReplayManager::new(2);
    assert!(replay.clock_diff().is_none());

    replay.step(LineEvent::Line(set_line()), Micros::from_micros(7_000));
    let d = replay.clock_diff().unwrap();
    assert_eq!(d.as_micros(), 7_000 - 1_690_000_000_100_000);

    // the offset is never recomputed, whatever `now` the next line sees
    replay.step(LineEvent::Line(get_line()), Micros::from_micros(123_456_789));
    assert_eq!(replay.clock_diff().unwrap().as_micros(), d.as_micros());
}

#[test]
fn malformed_line_ends_stream() {
    let mut replay = ReplayManager::new(2);
    let r = replay.step(LineEvent::Line("not a timestamp".to_string()), Micros::from_micros(0));
    assert!(r.is_none());
    assert!(replay.clock_diff().is_none());
}

#[test]
fn read_error_ends_stream() {
    let mut replay = ReplayManager::new(2);
    assert!(replay.step(LineEvent::ReadError, Micros::from_micros(0)).is_none());
}

#[test]
fn total_count_is_kept() {
    let replay = ReplayManager::new(41);
    assert_eq!(replay.total_count(), 41);
}

#[test]
fn line_counts() {
    assert_eq!(count_lines(""), 0);
    assert_eq!(count_lines("a\n"), 1);
    assert_eq!(count_lines("a\nb"), 2);
    assert_eq!(count_lines("a\nb\n"), 2);
    assert_eq!(count_lines("\n\n"), 2);
    assert_eq!(count_lines("single"), 1);
}

#[test]
fn release_decision_for_past_instant() {
    // a schedule whose instant has passed waits for nothing
    let cmd = ReplayCommand {
        ts: Micros::from_micros(10),
        db: 0,
        command: "PING".to_string(),
        args: vec![],
    };
    let delayed = redis_replay::command::ReplayCommandDelayed::delayed(
        cmd,
        Micros::from_micros(90),
    );
    assert_eq!(delayed.at.as_micros(), 100);
    assert_eq!(delayed.wait_micros(Micros::from_micros(250)), None);
    assert_eq!(delayed.wait_micros(Micros::from_micros(40)), Some(60));
    assert_eq!(delayed.wait_micros(Micros::from_micros(100)), Some(0));
}

#[test]
fn immediate_schedules_at_present() {
    let cmd = ReplayCommand {
        ts: Micros::from_micros(10),
        db: 0,
        command: "PING".to_string(),
        args: vec![],
    };
    let before = Micros::now().as_micros();
    let delayed = redis_replay::command::ReplayCommandDelayed::immediate(cmd);
    let after = Micros::now().as_micros();
    assert!(delayed.at.as_micros() >= before);
    assert!(delayed.at.as_micros() <= after);
    assert_eq!(delayed.into_command().command().as_str(), "PING");
}

#[test]
fn clock_diff_measures_from_recorded_timestamp() {
    let cmd = ReplayCommand {
        ts: Micros::from_micros(0),
        db: 0,
        command: "PING".to_string(),
        args: vec![],
    };
    // with a recorded timestamp at the epoch, the offset is the present instant
    let d = cmd.clock_diff();
    assert!(!d.is_negative());
}
