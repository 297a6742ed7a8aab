use bdsh::tmux::{Notification, TmuxError};

#[test]
fn test_notification_parse() {
    let notif = Notification::from_str("%session-changed 1 m0001\n").unwrap();
    assert_eq!(
        notif,
        Notification::SessionChanged("1".into(), "m0001".into())
    );
}

#[test]
fn test_notification_begin_end() {
    assert_eq!(Notification::from_str("%begin\n").unwrap(), Notification::Begin);
    assert_eq!(Notification::from_str("%end\n").unwrap(), Notification::End);
}

#[test]
fn test_notification_output() {
    assert_eq!(
        Notification::from_str("@ w0 @1\n").unwrap(),
        Notification::Output("w0 @1".into())
    );
}

#[test]
fn test_notification_other() {
    assert_eq!(
        Notification::from_str("%layout-change stuff\n").unwrap(),
        Notification::Other("%layout-change".into(), Some("stuff".into()))
    );
}

#[test]
fn test_notification_parse_error() {
    let err = Notification::from_str("garbage\n").unwrap_err();
    match err {
        TmuxError::NotifParseError(m) => assert_eq!(m, "parse error: 'garbage\n'"),
        _ => panic!("wrong error variant"),
    }
}

#[test]
fn test_notification_session_changed_missing_name() {
    let err = Notification::from_str("%session-changed 1\n").unwrap_err();
    match err {
        TmuxError::NotifParseError(m) => {
            assert_eq!(m, "missing session name in %session-changed")
        },
        _ => panic!("wrong error variant"),
    }
}
