use stelliberty_ipc::logbuf::{log_message, LogBuffer, LOG_CAPACITY};
use stelliberty_ipc::process::command_line;
use stelliberty_ipc::supervisor::{file_digest, CheckAction, StartDecision, Supervisor};
use stelliberty_ipc::watchdog::{CheckResult, Watchdog, CHECK_INTERVAL_MS, HEARTBEAT_TIMEOUT_MS};

const ABC_DIGEST: &str = "ba7816bf8f01cfea414140de5dae2223b00361a396177a9cb410ff61f20015ad";

#[test]
fn log_buffer_keeps_last_hundred() {
    let mut buf = LogBuffer::new();
    for i in 0..150 {
        buf.push_line(format!("line {}", i));
    }
    assert_eq!(buf.len(), LOG_CAPACITY);
    let lines = buf.lines();
    assert_eq!(lines.len(), 100);
    assert_eq!(lines[0], "line 50");
    assert_eq!(lines[99], "line 149");
    for (k, l) in lines.iter().enumerate() {
        assert_eq!(*l, format!("line {}", k + 50));
    }
}

#[test]
fn log_lines_are_newline_joined() {
    let mut buf = LogBuffer::new();
    assert_eq!(buf.joined(), "");
    buf.push_line("a".to_string());
    buf.push_line("b".to_string());
    assert_eq!(buf.joined(), "a\nb");
    log_message(&mut buf, "c".to_string());
    assert_eq!(buf.joined(), "a\nb\nc\n");
}

#[test]
fn silence_past_timeout_kills_once() {
    assert_eq!(HEARTBEAT_TIMEOUT_MS, 65_000);
    assert_eq!(CHECK_INTERVAL_MS, 30_000);
    let mut sup = Supervisor::new(ABC_DIGEST.to_string(), 0);
    assert!(matches!(sup.start(Some(b"abc"), 0), StartDecision::Launch { stop_previous: false }));
    assert_eq!(sup.finish_start(Ok(())), "");
    assert!(sup.is_running());
    let mut kills = 0;
    for k in 1..=10u64 {
        if sup.check(k * CHECK_INTERVAL_MS) == CheckAction::KillManaged {
            kills += 1;
            assert_eq!(k, 3);
        }
    }
    assert_eq!(kills, 1);
    assert!(!sup.is_running());
}

#[test]
fn heartbeats_keep_the_process() {
    let mut sup = Supervisor::new(ABC_DIGEST.to_string(), 0);
    sup.start(Some(b"abc"), 0);
    sup.finish_start(Ok(()));
    for k in 1..=10u64 {
        sup.heartbeat(k * CHECK_INTERVAL_MS - 1);
        assert_eq!(sup.check(k * CHECK_INTERVAL_MS), CheckAction::Nothing);
    }
    assert!(sup.is_running());
}

#[test]
fn sleep_gap_resets_instead_of_killing() {
    let mut dog = Watchdog::new(0);
    assert_eq!(dog.check(30_000), CheckResult::Alive);
    assert_eq!(dog.check(150_000), CheckResult::Woke);
    assert_eq!(dog.last_alive_ms, 150_000);
    assert_eq!(dog.check(180_000), CheckResult::Alive);

    let mut sup = Supervisor::new(ABC_DIGEST.to_string(), 0);
    sup.start(Some(b"abc"), 0);
    sup.finish_start(Ok(()));
    assert_eq!(sup.check(120_000), CheckAction::Nothing);
    assert!(sup.is_running());
}

#[test]
fn timeout_then_normal_gap_does_not_fire_again() {
    let mut dog = Watchdog::new(0);
    assert_eq!(dog.check(30_000), CheckResult::Alive);
    assert_eq!(dog.check(60_000), CheckResult::Alive);
    assert_eq!(dog.check(90_000), CheckResult::TimedOut);
    assert_eq!(dog.check(120_000), CheckResult::Alive);
}

#[test]
fn wrong_digest_is_refused_with_both() {
    let mut sup = Supervisor::new(ABC_DIGEST.to_string(), 0);
    let contents: &[u8] = b"not the core";
    let actual = file_digest(Some(contents));
    assert_ne!(actual, ABC_DIGEST);
    match sup.start(Some(contents), 5) {
        StartDecision::Rejected(msg) => {
            assert!(msg.contains(&actual));
            assert!(msg.contains(ABC_DIGEST));
        }
        StartDecision::Launch { .. } => panic!("launched"),
    }
    assert!(!sup.is_running());
    match sup.start_with_digest("0000", 5) {
        StartDecision::Rejected(msg) => assert_eq!(
            msg,
            format!("The SHA256 hash of the program requesting execution is: 0000. The helper program only allows execution of applications with the SHA256 hash: {}.", ABC_DIGEST)
        ),
        StartDecision::Launch { .. } => panic!("launched"),
    }
    assert!(matches!(sup.start(None, 5), StartDecision::Rejected(_)));
}

#[test]
fn digest_is_sha256_hex() {
    assert_eq!(file_digest(Some(b"abc")), ABC_DIGEST);
    assert_eq!(file_digest(None), "");
    assert_eq!(
        file_digest(Some(b"")),
        "e3b0c44298fc1c149afbf4c8996fb92427ae41e4649b934ca495991b7852b855"
    );
}

#[test]
fn restart_stops_previous_and_spawn_failure_is_logged() {
    let mut sup = Supervisor::new(ABC_DIGEST.to_string(), 0);
    assert_eq!(sup.ping(), ABC_DIGEST);
    sup.start(Some(b"abc"), 0);
    sup.finish_start(Ok(()));
    assert!(matches!(sup.start_with_digest(ABC_DIGEST, 10), StartDecision::Launch { stop_previous: true }));
    assert_eq!(sup.finish_start(Err("cannot spawn".to_string())), "cannot spawn");
    assert!(!sup.is_running());
    assert_eq!(sup.get_logs(), "cannot spawn\n");
}

#[test]
fn stop_twice_is_harmless() {
    let mut sup = Supervisor::new(ABC_DIGEST.to_string(), 0);
    assert!(!sup.stop());
    sup.start(Some(b"abc"), 0);
    sup.finish_start(Ok(()));
    assert!(sup.stop());
    assert!(!sup.stop());
    assert!(!sup.is_running());
}

#[test]
fn command_line_quotes_arguments_with_spaces() {
    let args = vec!["-d".to_string(), "C:\\my dir".to_string()];
    assert_eq!(command_line("C:\\core.exe", &args), "\"C:\\core.exe\" -d \"C:\\my dir\"");
    assert_eq!(command_line("core", &[]), "\"core\"");
}
