use libgitdit::display::{
    abbreviated, date_or_seconds, date_text, full_lines, list_entry, read_signer, show_entry,
    signer, summary_line, tree_line,
};
use libgitdit::oid::Oid;
use libgitdit::repository::{Commit, Signature};
use libgitdit::time::Time;

fn display_lines(lines: &[&str]) -> Vec<String> {
    lines.iter().map(|l| l.to_string()).collect()
}

fn display_commit(message: &str) -> Commit {
    let when = Time { seconds: 86400 + 3600, offset: 60 };
    Commit {
        id: Oid { bytes: [0xab; 20] },
        author: Signature { name: "Jane Doe".to_string(), email: "jane@example.org".to_string(), time: when },
        committer: Signature {
            name: "Com Mitter".to_string(),
            email: "c@example.org".to_string(),
            time: Time { seconds: 5, offset: 0 },
        },
        message: message.to_string(),
        parents: vec![],
        tree: Oid { bytes: [0; 20] },
    }
}

#[test]
fn date_text_in_the_formats_of_lists() {
    let epoch = Time { seconds: 0, offset: 0 };
    assert_eq!(date_text(epoch, "%+"), Some("1970-01-01T00:00:00+00:00".to_string()));
    assert_eq!(date_text(epoch, "%c"), Some("Thu Jan  1 00:00:00 1970".to_string()));
    assert_eq!(date_text(epoch, "%Y-%m-%d"), Some("1970-01-01".to_string()));
    assert_eq!(date_text(epoch, "plain"), Some("plain".to_string()));
}

#[test]
fn date_text_respects_the_offset() {
    assert_eq!(
        date_text(Time { seconds: 0, offset: 90 }, "%+"),
        Some("1970-01-01T01:30:00+01:30".to_string())
    );
    assert_eq!(
        date_text(Time { seconds: 0, offset: -300 }, "%+"),
        Some("1969-12-31T19:00:00-05:00".to_string())
    );
    assert_eq!(
        date_text(Time { seconds: 1109891125, offset: 0 }, "%c"),
        Some("Thu Mar  3 23:05:25 2005".to_string())
    );
}

#[test]
fn date_text_of_what_is_no_date() {
    assert_eq!(date_text(Time { seconds: 0, offset: 1440 }, "%+"), None);
    assert_eq!(date_text(Time { seconds: 0, offset: -1440 }, "%+"), None);
    assert_eq!(date_text(Time { seconds: 0, offset: i32::MAX }, "%+"), None);
    assert_eq!(date_text(Time { seconds: i64::MAX, offset: 0 }, "%+"), None);
    assert_eq!(date_text(Time { seconds: 0, offset: 0 }, "%Q"), None);
}

#[test]
fn date_or_seconds_falls_back_to_the_number() {
    assert_eq!(date_or_seconds(Some("a date".to_string()), 12), "a date");
    assert_eq!(date_or_seconds(None, 12), "12");
    assert_eq!(date_or_seconds(None, -7), "-7");
}

#[test]
fn abbreviated_cuts_the_id() {
    let id = Oid::from_hex("0123456789abcdef0123456789abcdef01234567").unwrap();
    assert_eq!(abbreviated(&id, 7), "0123456");
    assert_eq!(abbreviated(&id, 0), "");
    assert_eq!(abbreviated(&id, 40), "0123456789abcdef0123456789abcdef01234567");
    assert_eq!(abbreviated(&id, 100), "0123456789abcdef0123456789abcdef01234567");
}

#[test]
fn signer_as_text() {
    let s = Signature {
        name: "Jane Doe".to_string(),
        email: "jane@example.org".to_string(),
        time: Time { seconds: 0, offset: 0 },
    };
    assert_eq!(signer(&s), "Jane Doe <jane@example.org>");
}

#[test]
fn lines_of_lists() {
    assert_eq!(summary_line("abc", "today", "A subject"), "abc (today) A subject");
    assert_eq!(tree_line("abc", "Jane <j@x>", "A subject"), "abc Jane <j@x> A subject");
}

#[test]
fn full_lines_of_a_message() {
    let text = display_lines(&["first", "", "second"]);
    assert_eq!(
        full_lines("abc", true, "Jane <j@x>", "today", "A subject", &text),
        display_lines(&[
            "abc (head)",
            "Author: Jane <j@x>",
            "Date: today",
            "",
            "A subject",
            "",
            "first",
            "",
            "second",
            "",
        ])
    );
    assert_eq!(
        full_lines("abc", false, "J", "d", "s", &vec![]),
        display_lines(&["abc", "Author: J", "Date: d", "", "s", "", ""])
    );
}

#[test]
fn list_entry_short_and_long() {
    let commit = display_commit("Crash on start\n\nIt crashes.\n\nIssue-status: open\n");
    assert_eq!(
        list_entry(&commit, 7, false),
        display_lines(&["abababa (Fri Jan  2 02:00:00 1970) Crash on start"])
    );
    assert_eq!(
        list_entry(&commit, 4, true),
        display_lines(&[
            "abab",
            "Author: Jane Doe <jane@example.org>",
            "Date: 1970-01-02T02:00:00+01:00",
            "",
            "Crash on start",
            "",
            "It crashes.",
            "",
        ])
    );
}

#[test]
fn show_entry_short_and_long() {
    let commit = display_commit("Crash on start\n\nIt crashes.\n\nIssue-status: open\n");
    assert_eq!(
        show_entry(&commit, 7, None, true),
        display_lines(&["abababa Jane Doe <jane@example.org> Crash on start"])
    );
    assert_eq!(
        show_entry(&commit, 7, Some(commit.id), false),
        display_lines(&[
            "abababa (head)",
            "Author: Jane Doe <jane@example.org>",
            "Date: 1970-01-02T02:00:00+01:00",
            "",
            "Crash on start",
            "",
            "It crashes.",
            "",
            "Issue-status: open",
            "",
        ])
    );
    let bare = display_commit("Only a subject\n");
    assert_eq!(
        show_entry(&bare, 3, Some(Oid { bytes: [1; 20] }), false),
        display_lines(&[
            "aba",
            "Author: Jane Doe <jane@example.org>",
            "Date: 1970-01-02T02:00:00+01:00",
            "",
            "Only a subject",
            "",
            "",
        ])
    );
}

#[test]
fn read_signer_takes_name_and_address() {
    assert_eq!(
        read_signer("Jane Doe <jane@example.org>"),
        Some(("Jane Doe".to_string(), "jane@example.org".to_string()))
    );
    assert_eq!(
        read_signer("  Jane  < jane@example.org > trailing"),
        Some(("Jane".to_string(), "jane@example.org".to_string()))
    );
    assert_eq!(read_signer("<a@b>"), Some((String::new(), "a@b".to_string())));
    assert_eq!(read_signer("A <b<c>d>"), Some(("A".to_string(), "b<c>d".to_string())));
    assert_eq!(read_signer("A <>"), Some(("A".to_string(), String::new())));
    assert_eq!(read_signer("A ><"), None);
    assert_eq!(read_signer("Jane Doe"), None);
    assert_eq!(read_signer("Jane > Doe <"), None);
    assert_eq!(read_signer("Jane <Doe"), None);
    assert_eq!(read_signer(""), None);
}
