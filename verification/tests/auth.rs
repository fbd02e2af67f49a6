use forgedrive::auth::{
    authenticated_session, parse_session_id, session_cookie_value, AuthRejection, UserSession,
    UserSessionDb,
};

const IDS: &[i64] = &[0, 1, -1, 7, 42, 1000, -987654321, i64::MAX, i64::MIN, i64::MIN + 1];

#[test]
fn cookie_value_is_the_decimal_id() {
    for &id in IDS {
        assert_eq!(session_cookie_value(id), id.to_string());
    }
}

#[test]
fn cookie_value_reads_back_as_the_id() {
    for &id in IDS {
        assert_eq!(parse_session_id(&session_cookie_value(id)), Some(id));
    }
}

#[test]
fn parsing_agrees_with_str_parse() {
    let inputs = [
        "", "+", "-", "0", "-0", "+0", "007", "+5", "-5", "12a", "a12", " 1", "1 ", "1_000",
        "9223372036854775807", "9223372036854775808", "-9223372036854775808",
        "-9223372036854775809", "99999999999999999999999", "00000000000000000000000000001",
        "\u{663}", "--1", "+-1", "1.0",
    ];
    for s in inputs {
        assert_eq!(parse_session_id(s), s.parse::<i64>().ok(), "input {:?}", s);
    }
}

#[test]
fn parsing_edge_values() {
    assert_eq!(parse_session_id("-9223372036854775808"), Some(i64::MIN));
    assert_eq!(parse_session_id("9223372036854775808"), None);
    assert_eq!(parse_session_id("+12"), Some(12));
    assert_eq!(parse_session_id(""), None);
    assert_eq!(parse_session_id("-"), None);
}

fn row(read: i32, write: i32, admin: i32) -> UserSessionDb {
    UserSessionDb {
        id: 3,
        username: "ana".to_string(),
        root_path: "/data/ana".to_string(),
        allow_read: read,
        allow_write: write,
        is_admin: admin,
    }
}

#[test]
fn session_flags_are_nonzero_integers() {
    let s = UserSession::from_row(row(1, 0, 2));
    assert_eq!(s.id, 3);
    assert_eq!(s.username, "ana");
    assert_eq!(s.root_path, "/data/ana");
    assert!(s.allow_read);
    assert!(!s.allow_write);
    assert!(s.is_admin);
    let t = UserSession::from_row(row(0, -1, 0));
    assert!(!t.allow_read && t.allow_write && !t.is_admin);
}

#[test]
fn missing_user_row_requires_login() {
    assert_eq!(authenticated_session(None).unwrap_err(), AuthRejection::LoginRequired);
    let s = authenticated_session(Some(row(1, 1, 0))).unwrap();
    assert_eq!(s.id, 3);
}
