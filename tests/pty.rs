use xtermius::{exit_code, PtyError, PtyState};

#[test]
fn identifiers_start_at_one_and_increase() {
    let mut state: PtyState<u8> = PtyState::new();
    let a = state.register(10).unwrap();
    let b = state.register(20).unwrap();
    let c = state.register(30).unwrap();
    assert_eq!((a, b, c), (1, 2, 3));
    assert_eq!(state.exited(b, Some(0)).unwrap().code, 0);
    let d = state.register(40).unwrap();
    assert_eq!(d, 4);
}

#[test]
fn echo_session_sends_data_then_exit() {
    let mut state: PtyState<()> = PtyState::default();
    let id = state.register(()).unwrap();
    let data = state.output(id, b"hello\n").unwrap();
    assert_eq!(data.session_id, "1");
    assert_eq!(data.data, "hello\n");
    let exit = state.exited(id, Some(0)).unwrap();
    assert_eq!(exit.session_id, "1");
    assert_eq!(exit.code, 0);
}

#[test]
fn nothing_follows_an_exit() {
    let mut state: PtyState<()> = PtyState::new();
    let id = state.register(()).unwrap();
    assert!(state.exited(id, Some(3)).is_some());
    assert!(state.output(id, b"late").is_none());
    assert!(state.exited(id, Some(0)).is_none());
}

#[test]
fn requests_after_exit_find_no_session() {
    let mut state: PtyState<u8> = PtyState::new();
    let id = state.register(7).unwrap();
    assert_eq!(*state.session("1").unwrap(), 7);
    state.exited(id, None).unwrap();
    assert_eq!(state.session("1").unwrap_err(), PtyError::UnknownSession);
}

#[test]
fn killed_session_reports_a_non_zero_code() {
    let mut state: PtyState<()> = PtyState::new();
    let id = state.register(()).unwrap();
    let exit = state.exited(id, None).unwrap();
    assert_eq!(exit.code, 1);
    assert_ne!(exit.code, 0);
    assert_eq!(exit_code(Some(137)), 137);
    assert_eq!(exit_code(None), 1);
}

#[test]
fn write_to_unknown_session_fails_without_events() {
    let mut state: PtyState<()> = PtyState::new();
    assert_eq!(state.session("999").unwrap_err(), PtyError::UnknownSession);
    assert!(state.output(999, b"x").is_none());
    assert!(state.exited(999, Some(0)).is_none());
}

#[test]
fn repeated_lookups_of_a_live_session_succeed() {
    let mut state: PtyState<u8> = PtyState::new();
    state.register(5).unwrap();
    assert_eq!(*state.session("1").unwrap(), 5);
    assert_eq!(*state.session("1").unwrap(), 5);
}

#[test]
fn session_identifiers_that_name_no_session_are_unknown() {
    let mut state: PtyState<u8> = PtyState::new();
    state.register(5).unwrap();
    assert_eq!(*state.session("+1").unwrap(), 5);
    assert_eq!(*state.session("01").unwrap(), 5);
    assert_eq!(state.session("abc").unwrap_err(), PtyError::UnknownSession);
    assert_eq!(state.session("").unwrap_err(), PtyError::UnknownSession);
    assert_eq!(state.session(" 1").unwrap_err(), PtyError::UnknownSession);
    assert_eq!(state.session("4294967296").unwrap_err(), PtyError::UnknownSession);
    assert_eq!(state.session("4294967295").unwrap_err(), PtyError::UnknownSession);
}

#[test]
fn output_is_decoded_with_replacement() {
    let mut state: PtyState<()> = PtyState::new();
    let id = state.register(()).unwrap();
    let data = state.output(id, &[0x66, 0xff, 0x6f]).unwrap();
    assert_eq!(data.data, "f\u{FFFD}o");
    let data = state.output(id, "é".as_bytes()).unwrap();
    assert_eq!(data.data, "é");
}

#[test]
fn data_events_keep_read_order() {
    let mut state: PtyState<()> = PtyState::new();
    let a = state.register(()).unwrap();
    let b = state.register(()).unwrap();
    let mut texts = Vec::new();
    for chunk in [&b"one"[..], &b"two"[..], &b"three"[..]] {
        texts.push(state.output(a, chunk).unwrap().data);
        assert_eq!(state.output(b, b"other").unwrap().session_id, "2");
    }
    assert_eq!(texts.concat(), "onetwothree");
}

#[test]
fn error_messages() {
    assert_eq!(PtyError::UnknownSession.message(), "Unavailable session");
    assert_eq!(PtyError::IdsExhausted.message(), "no session identifier left");
}
