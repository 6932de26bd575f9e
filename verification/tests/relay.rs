//! Exercises the relay core with in-memory write handles: each client's
//! handle is a `String` that collects everything delivered to it.

use chat_relay::fanout::{format_message, Fanout};
use chat_relay::registry::Registry;
use chat_relay::session::{ReadOutcome, Session, SessionAction};

/// The snapshot position of `id`, if registered.
fn position_of(reg: &Registry<String>, id: &str) -> Option<usize> {
    let n = reg.len();
    let mut i = 0;
    while i < n {
        if reg.id_at(i).as_str() == id {
            return Some(i);
        }
        i += 1;
    }
    None
}

/// Runs a whole fanout, appending the payload to each recipient's handle,
/// except that writes to the positions in `fail_at` report failure.
fn deliver(reg: &mut Registry<String>, fan: &mut Fanout, fail_at: &[usize]) {
    while let Some(i) = fan.current() {
        let ok = !fail_at.contains(&i);
        if ok {
            let payload = fan.payload_str().clone();
            reg.handle_at(i).push_str(&payload);
        }
        fan.record(ok);
    }
}

fn broadcast(reg: &mut Registry<String>, sender: &str, line: &str, fail_at: &[usize]) -> Fanout {
    let sender = String::from(sender);
    let line = String::from(line);
    let mut fan = Fanout::begin(reg, &sender, &line);
    deliver(reg, &mut fan, fail_at);
    fan
}

fn handle_of(reg: &mut Registry<String>, id: &str) -> String {
    let i = position_of(reg, id).expect("client not registered");
    reg.handle_at(i).clone()
}

#[test]
fn message_format_is_sender_colon_space_line() {
    let m = format_message(&String::from("A"), &String::from("hi\n"));
    assert_eq!(m, "A: hi\n");
}

#[test]
fn registry_tracks_connected_clients() {
    let mut reg: Registry<String> = Registry::new();
    assert_eq!(reg.len(), 0);
    reg.insert(String::from("10.0.0.1:1"), String::new());
    reg.insert(String::from("10.0.0.2:2"), String::new());
    reg.insert(String::from("10.0.0.3:3"), String::new());
    assert_eq!(reg.len(), 3);
    assert!(reg.contains(&String::from("10.0.0.1:1")));
    assert!(reg.contains(&String::from("10.0.0.2:2")));
    assert!(reg.contains(&String::from("10.0.0.3:3")));
    assert!(!reg.contains(&String::from("10.0.0.4:4")));
}

#[test]
fn reinsert_replaces_and_keeps_one_entry() {
    let mut reg: Registry<String> = Registry::new();
    reg.insert(String::from("A"), String::from("old"));
    reg.insert(String::from("A"), String::from("new"));
    assert_eq!(reg.len(), 1);
    assert_eq!(handle_of(&mut reg, "A"), "new");
}

#[test]
fn remove_of_absent_identifier_is_a_noop() {
    let mut reg: Registry<String> = Registry::new();
    reg.insert(String::from("A"), String::new());
    reg.remove(&String::from("B"));
    assert_eq!(reg.len(), 1);
    assert!(reg.contains(&String::from("A")));
    reg.remove(&String::from("A"));
    reg.remove(&String::from("A"));
    assert_eq!(reg.len(), 0);
}

#[test]
fn broadcast_reaches_all_but_sender() {
    let mut reg: Registry<String> = Registry::new();
    reg.insert(String::from("A"), String::new());
    reg.insert(String::from("B"), String::new());
    reg.insert(String::from("C"), String::new());
    broadcast(&mut reg, "A", "hi\n", &[]);
    assert_eq!(handle_of(&mut reg, "A"), "");
    assert_eq!(handle_of(&mut reg, "B"), "A: hi\n");
    assert_eq!(handle_of(&mut reg, "C"), "A: hi\n");
}

#[test]
fn broadcast_with_no_other_clients_does_nothing() {
    let mut reg: Registry<String> = Registry::new();
    reg.insert(String::from("A"), String::new());
    let fan = broadcast(&mut reg, "A", "hi\n", &[]);
    assert!(fan.failures().is_empty());
    assert_eq!(handle_of(&mut reg, "A"), "");
}

#[test]
fn one_failed_write_does_not_abort_the_fanout() {
    let mut reg: Registry<String> = Registry::new();
    reg.insert(String::from("A"), String::new());
    reg.insert(String::from("B"), String::new());
    reg.insert(String::from("C"), String::new());
    let b = position_of(&reg, "B").unwrap();
    let fan = broadcast(&mut reg, "A", "hi\n", &[b]);
    // C still received the message, B's failure was only noted.
    assert_eq!(handle_of(&mut reg, "B"), "");
    assert_eq!(handle_of(&mut reg, "C"), "A: hi\n");
    assert_eq!(fan.failures().as_slice(), &[b]);
    // The failing recipient is not evicted by the broadcaster.
    assert_eq!(reg.len(), 3);
    assert!(reg.contains(&String::from("B")));
}

#[test]
fn disconnected_client_gets_no_further_writes() {
    let mut reg: Registry<String> = Registry::new();
    let _a = Session::register(&mut reg, String::from("A"), String::new());
    let b = Session::register(&mut reg, String::from("B"), String::new());
    let _c = Session::register(&mut reg, String::from("C"), String::new());
    b.finish(&mut reg);
    assert!(!reg.contains(&String::from("B")));
    let fan = broadcast(&mut reg, "A", "hi\n", &[]);
    assert_eq!(handle_of(&mut reg, "C"), "A: hi\n");
    assert!(fan.failures().is_empty());
    assert_eq!(reg.len(), 2);
}

#[test]
fn sequential_broadcasts_do_not_interleave_within_a_recipient() {
    let mut reg: Registry<String> = Registry::new();
    reg.insert(String::from("A"), String::new());
    reg.insert(String::from("B"), String::new());
    reg.insert(String::from("C"), String::new());
    // Broadcasts are serialized by the registry's exclusive access; each
    // recipient sees one whole payload after the other.
    broadcast(&mut reg, "A", "first\n", &[]);
    broadcast(&mut reg, "B", "second\n", &[]);
    assert_eq!(handle_of(&mut reg, "C"), "A: first\nB: second\n");
    assert_eq!(handle_of(&mut reg, "A"), "B: second\n");
    assert_eq!(handle_of(&mut reg, "B"), "A: first\n");
}

#[test]
fn session_reads_lines_until_close() {
    let mut reg: Registry<String> = Registry::new();
    let mut s = Session::register(&mut reg, String::from("A"), String::new());
    let action = s.on_read(ReadOutcome::Line(String::from("hello\n")));
    match action {
        SessionAction::Broadcast(line) => assert_eq!(line, "hello\n"),
        SessionAction::Stop => panic!("a line must be broadcast"),
    }
    let action = s.on_read(ReadOutcome::Closed);
    assert!(matches!(action, SessionAction::Stop));
    s.finish(&mut reg);
    assert_eq!(reg.len(), 0);
}

#[test]
fn session_read_error_ends_session_like_a_close() {
    let mut reg: Registry<String> = Registry::new();
    let mut s = Session::register(&mut reg, String::from("A"), String::new());
    let action = s.on_read(ReadOutcome::Failed);
    assert!(matches!(action, SessionAction::Stop));
    s.finish(&mut reg);
    assert!(!reg.contains(&String::from("A")));
}

#[test]
fn scenario_two_clients_hello_then_disconnect() {
    let mut reg: Registry<String> = Registry::new();
    let mut a = Session::register(&mut reg, String::from("A"), String::new());
    let b = Session::register(&mut reg, String::from("B"), String::new());

    // A sends "hello\n": B receives exactly "A: hello\n", A receives nothing.
    let action = a.on_read(ReadOutcome::Line(String::from("hello\n")));
    let line = match action {
        SessionAction::Broadcast(line) => line,
        SessionAction::Stop => panic!("a line must be broadcast"),
    };
    let sender = String::from("A");
    let mut fan = Fanout::begin(&reg, &sender, &line);
    deliver(&mut reg, &mut fan, &[]);
    assert_eq!(handle_of(&mut reg, "B"), "A: hello\n");
    assert_eq!(handle_of(&mut reg, "A"), "");

    // B disconnects; A sends "second\n": nothing fails, nothing is
    // delivered to B, and A still receives nothing.
    b.finish(&mut reg);
    let action = a.on_read(ReadOutcome::Line(String::from("second\n")));
    let line = match action {
        SessionAction::Broadcast(line) => line,
        SessionAction::Stop => panic!("a line must be broadcast"),
    };
    let mut fan = Fanout::begin(&reg, &sender, &line);
    deliver(&mut reg, &mut fan, &[]);
    assert!(fan.failures().is_empty());
    assert_eq!(reg.len(), 1);
    assert_eq!(handle_of(&mut reg, "A"), "");
}
