use hid_scanner::catalog::DeviceDescriptor;
use hid_scanner::session::{
    DeviceSession, Directive, Notice, ScanEvent, ScannerError, SessionConfig, SessionEvent,
    SessionStatus,
};

fn scanner() -> DeviceDescriptor {
    DeviceDescriptor::new(0x1234, 0x5678, Some("Scanner".to_string()), "/dev/hidraw3".to_string())
}

fn small() -> SessionConfig {
    SessionConfig { max_line_len: 8, read_timeout_ms: 250, scratch_len: 16 }
}

fn reading() -> DeviceSession {
    let mut session = DeviceSession::new(scanner(), small());
    session.step(SessionEvent::Opened);
    session
}

fn scan(barcode: &str, timestamp: u64) -> Notice {
    Notice::Scan(ScanEvent {
        barcode: barcode.to_string(),
        device: "/dev/hidraw3".to_string(),
        timestamp,
    })
}

const READ: Directive = Directive::Read { timeout_ms: 250, scratch_len: 16 };

#[test]
fn the_default_configuration() {
    let config = SessionConfig::default();
    assert_eq!(config.max_line_len, 4096);
    assert_eq!(config.read_timeout_ms, 1000);
    assert_eq!(config.scratch_len, 64);
}

#[test]
fn a_new_session_is_starting_and_wants_its_device_opened() {
    let session = DeviceSession::new(scanner(), small());
    assert_eq!(*session.status(), SessionStatus::Starting);
    assert_eq!(session.directive(), Directive::Open);
    assert_eq!(*session.descriptor(), scanner());
    assert_eq!(session.config(), small());
}

#[test]
fn opening_takes_a_session_to_reading() {
    let mut session = DeviceSession::new(scanner(), small());
    let step = session.step(SessionEvent::Opened);
    assert_eq!(step.notices, vec![]);
    assert_eq!(step.next, READ);
    assert_eq!(*session.status(), SessionStatus::Reading);
    assert_eq!(session.directive(), READ);
}

#[test]
fn a_failed_open_fails_the_session_and_emits_no_event() {
    let mut session = DeviceSession::new(scanner(), small());
    let step = session.step(SessionEvent::OpenFailed("permission denied".to_string()));
    let error = ScannerError::DeviceOpen {
        descriptor: scanner(),
        cause: "permission denied".to_string(),
    };
    assert_eq!(step.notices, vec![Notice::Fault(error.clone())]);
    assert_eq!(step.next, Directive::Halt);
    assert_eq!(*session.status(), SessionStatus::Failed(error));
}

#[test]
fn data_is_decoded_into_scan_events() {
    let mut session = reading();
    let step = session.step(SessionEvent::Data(b" 12345 \n", 1700));
    assert_eq!(step.notices, vec![scan("12345", 1700)]);
    assert_eq!(step.next, READ);
    assert_eq!(*session.status(), SessionStatus::Reading);
}

#[test]
fn scan_events_come_in_the_order_of_the_lines() {
    let mut session = reading();
    let step = session.step(SessionEvent::Data(b"1\n\n2\n3", 9));
    assert_eq!(step.notices, vec![scan("1", 9), scan("2", 9)]);
    let step = session.step(SessionEvent::Data(b"\n", 10));
    assert_eq!(step.notices, vec![scan("3", 10)]);
}

#[test]
fn a_read_that_times_out_changes_nothing() {
    let mut session = reading();
    session.step(SessionEvent::Data(b"12", 1));
    let step = session.step(SessionEvent::Data(b"", 2));
    assert_eq!(step.notices, vec![]);
    assert_eq!(step.next, READ);
    assert_eq!(*session.status(), SessionStatus::Reading);
    let step = session.step(SessionEvent::Data(b"3\n", 3));
    assert_eq!(step.notices, vec![scan("123", 3)]);
}

#[test]
fn an_overflow_is_reported_and_the_session_reads_on() {
    let mut session = reading();
    let step = session.step(SessionEvent::Data(b"123456789", 5));
    assert_eq!(step.notices, vec![Notice::Fault(ScannerError::BufferOverflow)]);
    assert_eq!(step.next, READ);
    assert_eq!(*session.status(), SessionStatus::Reading);
    let step = session.step(SessionEvent::Data(b"\n42\n", 6));
    assert_eq!(step.notices, vec![scan("42", 6)]);
}

#[test]
fn a_failed_read_fails_the_session_once() {
    let mut session = reading();
    let step = session.step(SessionEvent::ReadFailed("unplugged".to_string()));
    let error = ScannerError::DeviceRead { cause: "unplugged".to_string() };
    assert_eq!(step.notices, vec![Notice::Fault(error.clone())]);
    assert_eq!(step.next, Directive::Halt);
    assert_eq!(*session.status(), SessionStatus::Failed(error.clone()));

    let step = session.step(SessionEvent::ReadFailed("again".to_string()));
    assert_eq!(step.notices, vec![]);
    assert_eq!(step.next, Directive::Halt);
    assert_eq!(*session.status(), SessionStatus::Failed(error));
}

#[test]
fn a_failed_session_produces_no_more_events() {
    let mut session = reading();
    session.step(SessionEvent::Data(b"12", 1));
    session.step(SessionEvent::ReadFailed("unplugged".to_string()));
    for event in [
        SessionEvent::Data(b"345\n", 2),
        SessionEvent::Opened,
        SessionEvent::Cancel,
        SessionEvent::OpenFailed("x".to_string()),
    ] {
        let step = session.step(event);
        assert_eq!(step.notices, vec![]);
        assert_eq!(step.next, Directive::Halt);
    }
    assert_eq!(
        *session.status(),
        SessionStatus::Failed(ScannerError::DeviceRead { cause: "unplugged".to_string() })
    );
}

#[test]
fn cancelling_closes_a_reading_session() {
    let mut session = reading();
    let step = session.step(SessionEvent::Cancel);
    assert_eq!(step.notices, vec![]);
    assert_eq!(step.next, Directive::Halt);
    assert_eq!(*session.status(), SessionStatus::Closed);
}

#[test]
fn cancelling_closes_a_starting_session() {
    let mut session = DeviceSession::new(scanner(), small());
    let step = session.step(SessionEvent::Cancel);
    assert_eq!(step.next, Directive::Halt);
    assert_eq!(*session.status(), SessionStatus::Closed);
    let step = session.step(SessionEvent::Opened);
    assert_eq!(step.next, Directive::Halt);
    assert_eq!(*session.status(), SessionStatus::Closed);
}

#[test]
fn a_read_that_ends_after_the_cancel_is_dropped() {
    let mut session = reading();
    session.step(SessionEvent::Data(b"123", 1));
    session.step(SessionEvent::Cancel);
    let step = session.step(SessionEvent::Data(b"45\n", 2));
    assert_eq!(step.notices, vec![]);
    assert_eq!(step.next, Directive::Halt);
    let step = session.step(SessionEvent::ReadFailed("gone".to_string()));
    assert_eq!(step.notices, vec![]);
    assert_eq!(*session.status(), SessionStatus::Closed);
}

#[test]
fn events_that_do_not_apply_are_ignored() {
    let mut session = DeviceSession::new(scanner(), small());
    let step = session.step(SessionEvent::Data(b"123\n", 1));
    assert_eq!(step.notices, vec![]);
    assert_eq!(step.next, Directive::Open);
    let step = session.step(SessionEvent::ReadFailed("early".to_string()));
    assert_eq!(step.notices, vec![]);
    assert_eq!(*session.status(), SessionStatus::Starting);

    let mut session = reading();
    let step = session.step(SessionEvent::OpenFailed("late".to_string()));
    assert_eq!(step.notices, vec![]);
    assert_eq!(step.next, READ);
    let step = session.step(SessionEvent::Opened);
    assert_eq!(step.next, READ);
    assert_eq!(*session.status(), SessionStatus::Reading);
}

#[test]
fn only_open_and_read_failures_end_a_session() {
    assert!(ScannerError::DeviceRead { cause: String::new() }.ends_session());
    assert!(ScannerError::DeviceOpen { descriptor: scanner(), cause: String::new() }.ends_session());
    assert!(!ScannerError::BufferOverflow.ends_session());
}

#[test]
fn failed_and_closed_are_terminal() {
    assert!(!SessionStatus::Starting.is_terminal());
    assert!(!SessionStatus::Reading.is_terminal());
    assert!(SessionStatus::Closed.is_terminal());
    assert!(SessionStatus::Failed(ScannerError::BufferOverflow).is_terminal());
}

#[test]
fn reads_cut_differently_give_the_same_events() {
    let stream = b"111\n222\n33";
    let mut whole = reading();
    let expected = whole.step(SessionEvent::Data(stream, 4)).notices;
    assert_eq!(expected, vec![scan("111", 4), scan("222", 4)]);
    for cut in 0..=stream.len() {
        let mut session = reading();
        let mut notices = session.step(SessionEvent::Data(&stream[..cut], 4)).notices;
        notices.extend(session.step(SessionEvent::Data(&stream[cut..], 4)).notices);
        assert_eq!(notices, expected);
    }
}
