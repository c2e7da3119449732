use chrono::{Datelike, Timelike};
use poezio::datetime::{parse_datetime, Instant};
use poezio::error::ErrorKind;
use poezio::logger::{parse_log_info, parse_log_message, parse_logs, Item, LogInfo, LogItem, LogMessage};

fn instant(s: &str) -> Instant {
    let t: chrono::DateTime<chrono::Utc> = s.parse().unwrap();
    Instant::new(t.year(), t.month(), t.day(), t.hour(), t.minute(), t.second()).unwrap()
}

fn lines(ls: &[&str]) -> Vec<String> {
    ls.iter().map(|l| l.to_string()).collect()
}

#[test]
fn simple_message() {
    let log = "MR 20181016T14:10:08Z 000 <Link Mauve>  Hello world!\n";
    let message = LogMessage {
        time: instant("2018-10-16T16:10:08+0200"),
        nick: "Link Mauve".to_string(),
        message: lines(&["Hello world!"]),
    };
    let (_, message2) = parse_log_message(log).unwrap();
    assert_eq!(message, message2);
}

#[test]
fn multiple_messages() {
    let log = "MR 20181016T14:10:08Z 000 <Link Mauve>  Hello…\nMR 20181016T14:10:11Z 000 <Link Mauve>  world!\n";
    let messages = [
        LogMessage {
            time: instant("2018-10-16T16:10:08+0200"),
            nick: "Link Mauve".to_string(),
            message: lines(&["Hello…"]),
        },
        LogMessage {
            time: instant("2018-10-16T16:10:11+0200"),
            nick: "Link Mauve".to_string(),
            message: lines(&["world!"]),
        },
    ];
    let (i, message1) = parse_log_message(log).unwrap();
    let (_, message2) = parse_log_message(&i).unwrap();
    assert_eq!(messages, [message1, message2]);
}

#[test]
fn parse_all_logs() {
    let log = "MR 20181016T14:10:08Z 000 <Link Mauve>  Hello…\nMR 20181016T14:10:11Z 000 <Link Mauve>  world!\n";
    let messages = vec![
        Item::Message(LogMessage {
            time: instant("2018-10-16T16:10:08+0200"),
            nick: "Link Mauve".to_string(),
            message: lines(&["Hello…"]),
        }),
        Item::Message(LogMessage {
            time: instant("2018-10-16T16:10:11+0200"),
            nick: "Link Mauve".to_string(),
            message: lines(&["world!"]),
        }),
    ];
    let messages1 = parse_logs(log).unwrap();
    assert_eq!(messages, messages1);
}

#[test]
fn trailing_characters() {
    let log = "MR 20181016T14:10:08Z 000 <Link Mauve>  Hello…\nMR 20181016T14:10:11Z 000 <Link Mauve>  world!\n\n";
    parse_logs(log).unwrap_err();
}

#[test]
fn multiline_message() {
    let log = "MR 20181016T14:10:08Z 001 <Link Mauve>  Hello…\n world!\n";
    let message = LogMessage {
        time: instant("2018-10-16T16:10:08+0200"),
        nick: "Link Mauve".to_string(),
        message: lines(&["Hello…", "world!"]),
    };
    let (_, message2) = parse_log_message(log).unwrap();
    assert_eq!(message, message2);
}

#[test]
fn message_with_two_plain_spaces() {
    let log = "MR 20181016T14:10:08Z 000 <Link Mauve>  Hello world!\n";
    let items = parse_logs(log).unwrap();
    assert_eq!(
        items,
        vec![Item::Message(LogMessage {
            time: Instant::new(2018, 10, 16, 14, 10, 8).unwrap(),
            nick: "Link Mauve".to_string(),
            message: lines(&["Hello world!"]),
        })]
    );
}

#[test]
fn multiline_message_plain_spaces() {
    let log = "MR 20181016T14:10:08Z 001 <Link Mauve>  Hello…\n world!\n";
    let items = parse_logs(log).unwrap();
    match &items[..] {
        [Item::Message(m)] => {
            assert_eq!(m.message, lines(&["Hello…", "world!"]));
            assert_eq!(m.get_message(), "Hello…\nworld!");
            assert_eq!(m.get_nick(), "Link Mauve");
        }
        _ => panic!("expected one message, got {:?}", items),
    }
}

#[test]
fn sequential_records_keep_order() {
    let a = "MR 20181016T14:10:08Z 000 <Alice>  one\n";
    let b = "MR 20190101T00:00:00Z 000 <Bob>  two\n";
    let both = format!("{}{}", a, b);
    let items = parse_logs(&both).unwrap();
    let mut expected = parse_logs(a).unwrap();
    expected.extend(parse_logs(b).unwrap());
    assert_eq!(items, expected);
    assert_eq!(items.len(), 2);
    match (&items[0], &items[1]) {
        (Item::Message(x), Item::Message(y)) => {
            assert_eq!(x.nick, "Alice");
            assert_eq!(y.nick, "Bob");
            assert_eq!(x.time, Instant::new(2018, 10, 16, 14, 10, 8).unwrap());
            assert_eq!(y.time, Instant::new(2019, 1, 1, 0, 0, 0).unwrap());
        }
        _ => panic!("expected two messages"),
    }
}

#[test]
fn stray_newline_fails_at_its_position() {
    let a = "MR 20181016T14:10:08Z 000 <Alice>  one\n";
    let log = format!("{}{}\n", a, a);
    let err = parse_logs(&log).unwrap_err();
    assert_eq!(err.kind, ErrorKind::UnrecognizedRecordPrefix);
    assert_eq!(err.position, 2 * a.chars().count());
}

#[test]
fn unrecognized_prefix() {
    let err = parse_logs("XX 20181016T14:10:08Z 000 <a>  b\n").unwrap_err();
    assert_eq!(err.kind, ErrorKind::UnrecognizedRecordPrefix);
    assert_eq!(err.position, 0);
}

#[test]
fn empty_log_has_no_records() {
    assert_eq!(parse_logs("").unwrap(), vec![]);
}

#[test]
fn info_record() {
    let log = "MI 20200229T23:59:59Z 001 first\n second\n";
    let items = parse_logs(log).unwrap();
    let info = LogInfo {
        time: Instant::new(2020, 2, 29, 23, 59, 59).unwrap(),
        message: lines(&["first", "second"]),
    };
    assert_eq!(items, vec![Item::Info(info.clone())]);
    assert_eq!(info.get_message(), "first\nsecond");
    assert_eq!(*info.get_time(), Instant::new(2020, 2, 29, 23, 59, 59).unwrap());
    let (rest, info2) = parse_log_info("MI 20200229T23:59:59Z 000 x\nMR").unwrap();
    assert_eq!(rest, "MR");
    assert_eq!(info2.message, lines(&["x"]));
}

#[test]
fn malformed_timestamp() {
    let err = parse_logs("MR 2018X016T14:10:08Z 000 <a>  b\n").unwrap_err();
    assert_eq!(err.kind, ErrorKind::MalformedTimestamp);
    let err = parse_logs("MI 20190229T00:00:00Z 000 b\n").unwrap_err();
    assert_eq!(err.kind, ErrorKind::MalformedTimestamp);
    let err = parse_logs("MI 20190228T24:00:00Z 000 b\n").unwrap_err();
    assert_eq!(err.kind, ErrorKind::MalformedTimestamp);
}

#[test]
fn malformed_header() {
    let ok = "MI 20190228T10:00:00Z 000 b\n";
    for bad in [
        "MR 20181016T14:10:08Z 0a0 <a>  b\n",
        "MR 20181016T14:10:08Z 000 a>  b\n",
        "MR 20181016T14:10:08Z 000 <a> b\n",
        "MR 20181016T14:10:08Z 000 <a>  b",
        "MR 20181016T14:10:08Z 001 <a>  b\n",
        "MR 20181016T14:10:08Z 001 <a>  b\nc\n",
        "MI 20181016T14:10:08Z 000b\n",
    ] {
        let log = format!("{}{}", ok, bad);
        let err = parse_logs(&log).unwrap_err();
        assert_eq!(err.kind, ErrorKind::MalformedRecordHeader, "{:?}", bad);
        assert_eq!(err.position, ok.chars().count());
    }
}

#[test]
fn datetime_token() {
    let (rest, t) = parse_datetime("20181016T14:10:08Z tail").unwrap();
    assert_eq!(rest, " tail");
    assert_eq!(t, Instant::new(2018, 10, 16, 14, 10, 8).unwrap());
    assert_eq!(t.year, 2018);
    assert_eq!(t.second, 8);
    assert!(parse_datetime("20181016T14:10:08").is_err());
    assert!(parse_datetime("20181316T14:10:08Z").is_err());
}

#[test]
fn calendar_checks() {
    assert!(Instant::new(2019, 2, 29, 0, 0, 0).is_none());
    assert!(Instant::new(2000, 2, 29, 0, 0, 0).is_some());
    assert!(Instant::new(1900, 2, 29, 0, 0, 0).is_none());
    assert!(Instant::new(2019, 4, 31, 0, 0, 0).is_none());
    assert!(Instant::new(2019, 4, 30, 23, 59, 59).is_some());
    assert!(Instant::new(2019, 4, 30, 24, 0, 0).is_none());
    assert!(Instant::new(2019, 4, 30, 0, 60, 0).is_none());
    assert!(Instant::new(2019, 4, 30, 0, 0, 60).is_none());
}

#[test]
fn no_break_space_does_not_end_nick() {
    let err = parse_log_message("MR 20181016T14:10:08Z 000 <a> \u{a0}b\n").unwrap_err();
    assert_eq!(err.kind, ErrorKind::MalformedRecordHeader);
    let (rest, m) = parse_log_message("MR 20181016T14:10:08Z 000 <a> \u{a0}b>  x\n").unwrap();
    assert_eq!(rest, "");
    assert_eq!(m.nick, "a> \u{a0}b");
    assert_eq!(m.message, lines(&["x"]));
}

#[test]
fn error_messages() {
    let err = parse_logs("XX ").unwrap_err();
    assert_eq!(err.message(), "unrecognized record prefix");
    assert_eq!(ErrorKind::MalformedTimestamp.message(), "malformed timestamp");
}
