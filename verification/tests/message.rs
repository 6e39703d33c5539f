use libgitdit::error::Error;
use libgitdit::message::{
    check_format, check_message, quote, reply_subject, without_comments, Message,
};
use libgitdit::trailer::{Trailer, TrailerValue};

fn message_lines_of(lines: &[&str]) -> Vec<String> {
    lines.iter().map(|l| l.to_string()).collect()
}

fn message_trailer(key: &str, value: &str) -> Trailer {
    Trailer { key: key.to_string(), value: TrailerValue::String(value.to_string()) }
}

#[test]
fn parse_message_with_trailers() {
    let m = Message::parse("Fix bug\n\nBody line\n\nSigned-off-by: A <a@x>\nIssue-status: open\n");
    assert_eq!(m.subject, "Fix bug");
    assert_eq!(m.body, message_lines_of(&["Body line"]));
    assert_eq!(
        m.trailers,
        vec![message_trailer("Signed-off-by", "A <a@x>"), message_trailer("Issue-status", "open")]
    );
}

#[test]
fn parse_empty_text_gives_empty_message() {
    let m = Message::parse("");
    assert_eq!(m.subject, "");
    assert!(m.body.is_empty());
    assert!(m.trailers.is_empty());
}

#[test]
fn parse_blank_text_gives_empty_message() {
    let m = Message::parse("\n  \n\t\n");
    assert_eq!(m.subject, "");
    assert!(m.body.is_empty());
    assert!(m.trailers.is_empty());
}

#[test]
fn parse_subject_only() {
    let m = Message::parse("Just a subject");
    assert_eq!(m.subject, "Just a subject");
    assert!(m.body.is_empty());
    assert!(m.trailers.is_empty());
}

#[test]
fn parse_trims_subject_and_skips_leading_blank_lines() {
    let m = Message::parse("\n\n   Subject with space \t\n\nBody\n");
    assert_eq!(m.subject, "Subject with space");
    assert_eq!(m.body, message_lines_of(&["Body"]));
}

#[test]
fn parse_subject_that_looks_like_a_trailer_stays_subject() {
    let m = Message::parse("Fix: the bug\n\nText\n");
    assert_eq!(m.subject, "Fix: the bug");
    assert_eq!(m.body, message_lines_of(&["Text"]));
    assert!(m.trailers.is_empty());
}

#[test]
fn parse_trailers_without_body() {
    let m = Message::parse("Subject\n\nIssue-status: closed\n");
    assert_eq!(m.subject, "Subject");
    assert!(m.body.is_empty());
    assert_eq!(m.trailers, vec![message_trailer("Issue-status", "closed")]);
}

#[test]
fn parse_last_paragraph_that_starts_with_text_has_no_trailers() {
    let m = Message::parse("Subject\n\nSome text\nKey: value\n");
    assert_eq!(m.body, message_lines_of(&["Some text", "Key: value"]));
    assert!(m.trailers.is_empty());
}

#[test]
fn parse_keeps_blank_lines_inside_the_body() {
    let m = Message::parse("Subject\n\nOne\n\nTwo\n\nKey: value");
    assert_eq!(m.body, message_lines_of(&["One", "", "Two"]));
    assert_eq!(m.trailers, vec![message_trailer("Key", "value")]);
}

#[test]
fn parse_drops_blank_lines_at_the_end() {
    let m = Message::parse("Subject\n\nBody\n\nKey: value\n\n\n");
    assert_eq!(m.body, message_lines_of(&["Body"]));
    assert_eq!(m.trailers, vec![message_trailer("Key", "value")]);
}

#[test]
fn parse_without_separator_takes_the_second_line_as_body() {
    let m = Message::parse("Subject\nBody at once\n");
    assert_eq!(m.subject, "Subject");
    assert_eq!(m.body, message_lines_of(&["Body at once"]));
}

#[test]
fn parse_reads_numbers_in_trailers() {
    let m = Message::parse("Subject\n\nPriority: 3\nIssue-type: bug\n");
    assert_eq!(
        m.trailers,
        vec![
            Trailer { key: "Priority".to_string(), value: TrailerValue::Int(3) },
            message_trailer("Issue-type", "bug"),
        ]
    );
}

#[test]
fn serialize_gives_the_lines_with_separators() {
    let m = Message {
        subject: "Fix bug".to_string(),
        body: message_lines_of(&["Body line"]),
        trailers: vec![message_trailer("Signed-off-by", "A <a@x>"), message_trailer("Issue-status", "open")],
    };
    assert_eq!(
        m.serialize(),
        "Fix bug\n\nBody line\n\nSigned-off-by: A <a@x>\nIssue-status: open\n"
    );
    assert_eq!(
        m.lines(),
        message_lines_of(&["Fix bug", "", "Body line", "", "Signed-off-by: A <a@x>", "Issue-status: open"])
    );
}

#[test]
fn serialize_subject_only() {
    let m = Message { subject: "S".to_string(), body: vec![], trailers: vec![] };
    assert_eq!(m.serialize(), "S\n");
    assert_eq!(m.text(), "S");
}

#[test]
fn parse_of_serialize_gives_the_message_back() {
    let messages = vec![
        Message { subject: "S".to_string(), body: vec![], trailers: vec![] },
        Message { subject: "S".to_string(), body: message_lines_of(&["a", "", "b"]), trailers: vec![] },
        Message {
            subject: "Re: S".to_string(),
            body: vec![],
            trailers: vec![Trailer { key: "N".to_string(), value: TrailerValue::Int(-12) }],
        },
        Message {
            subject: "Key: value".to_string(),
            body: message_lines_of(&["", "text", ""]),
            trailers: vec![message_trailer("Issue-status", "open"), message_trailer("X-1", "")],
        },
    ];
    for m in messages {
        assert_eq!(Message::parse(&m.serialize()), m);
    }
}

#[test]
fn text_is_the_trimmed_serialization() {
    let m = Message {
        subject: "Subject".to_string(),
        body: message_lines_of(&["Body"]),
        trailers: vec![message_trailer("Issue-status", "open")],
    };
    assert_eq!(m.text(), "Subject\n\nBody\n\nIssue-status: open");
}

#[test]
fn check_format_accepts_a_full_message() {
    let lines = message_lines_of(&["Subject", "", "Body", "", "Issue-status: open"]);
    assert_eq!(check_format(&lines), Ok(()));
}

#[test]
fn check_format_accepts_a_subject_alone() {
    assert_eq!(check_format(&message_lines_of(&["Subject"])), Ok(()));
    assert_eq!(check_format(&message_lines_of(&["Subject", ""])), Ok(()));
}

#[test]
fn check_format_accepts_trailers_right_behind_the_separator() {
    let lines = message_lines_of(&["Subject", "", "Issue-status: open", "Issue-type: bug"]);
    assert_eq!(check_format(&lines), Ok(()));
}

#[test]
fn check_format_refuses_no_lines() {
    assert_eq!(check_format(&vec![]), Err(Error::MalformedMessage));
}

#[test]
fn check_format_refuses_an_empty_first_line() {
    assert_eq!(check_format(&message_lines_of(&["", "Subject"])), Err(Error::MalformedMessage));
    assert_eq!(check_format(&message_lines_of(&["   "])), Err(Error::MalformedMessage));
}

#[test]
fn check_format_refuses_a_second_line_that_is_not_empty() {
    let lines = message_lines_of(&["Subject", "Body at once"]);
    assert_eq!(check_format(&lines), Err(Error::MalformedMessage));
}

#[test]
fn check_format_refuses_a_trailer_block_behind_text() {
    let lines = message_lines_of(&["Subject", "", "Some text", "Issue-status: open"]);
    assert_eq!(check_format(&lines), Err(Error::MalformedMessage));
}

#[test]
fn check_message_ignores_blank_lines_around_the_message() {
    assert_eq!(check_message("\n\nSubject\n\nBody\n\n\n"), Ok(()));
    assert_eq!(check_message(""), Err(Error::MalformedMessage));
    assert_eq!(check_message("Subject\nBody"), Err(Error::MalformedMessage));
}

#[test]
fn reply_subject_prepends_re() {
    assert_eq!(reply_subject("Fix bug"), "Re: Fix bug");
    assert_eq!(reply_subject(""), "Re: ");
    assert_eq!(reply_subject("Re"), "Re: Re");
}

#[test]
fn reply_subject_keeps_a_reply_subject() {
    assert_eq!(reply_subject("Re: Fix bug"), "Re: Fix bug");
    assert_eq!(reply_subject("RE: Fix bug"), "RE: Fix bug");
    assert_eq!(reply_subject("re:Fix bug"), "re:Fix bug");
    assert_eq!(reply_subject("rE: x"), "rE: x");
}

#[test]
fn reply_subject_is_idempotent() {
    for s in ["Fix bug", "Re: Fix bug", "", "R", "Re", "re:", "Ré: x", "Regarding: x"] {
        let once = reply_subject(s);
        assert_eq!(reply_subject(&once), once);
    }
}

#[test]
fn quote_prefixes_each_line() {
    let lines = message_lines_of(&["first", "", " indented", "> quoted"]);
    assert_eq!(quote(&lines), message_lines_of(&["> first", ">", ">  indented", "> > quoted"]));
    assert_eq!(quote(&vec![]), Vec::<String>::new());
}

#[test]
fn reply_to_builds_the_start_of_a_reply() {
    let parent = Message::parse("Fix bug\n\nline one\n\nline two\n\nIssue-status: open\n");
    let trailers = vec![message_trailer("Issue-status", "closed")];
    let reply = Message::reply_to(&parent, true, trailers.clone());
    assert_eq!(reply.subject, "Re: Fix bug");
    assert_eq!(reply.body, message_lines_of(&["> line one", ">", "> line two"]));
    assert_eq!(reply.trailers, trailers);
    let plain = Message::reply_to(&parent, false, vec![]);
    assert_eq!(plain.subject, "Re: Fix bug");
    assert!(plain.body.is_empty());
    assert!(plain.trailers.is_empty());
}

#[test]
fn parse_handles_text_beyond_ascii() {
    let m = Message::parse("Überschrift — wichtig\n\nKörper ✓\n\nAutor: Jürgen\n");
    assert_eq!(m.subject, "Überschrift — wichtig");
    assert_eq!(m.body, message_lines_of(&["Körper ✓"]));
    assert_eq!(m.trailers, vec![message_trailer("Autor", "Jürgen")]);
}

#[test]
fn message_from_paragraphs() {
    let paragraphs = message_lines_of(&["Subject", "First paragraph\nof two lines", "Second"]);
    let m = Message::from_paragraphs(&paragraphs, vec![message_trailer("Issue-status", "open")]);
    assert_eq!(m.subject, "Subject");
    assert_eq!(m.body, message_lines_of(&["First paragraph", "of two lines", "", "Second"]));
    assert_eq!(m.trailers, vec![message_trailer("Issue-status", "open")]);
    assert_eq!(
        m.text(),
        "Subject\n\nFirst paragraph\nof two lines\n\nSecond\n\nIssue-status: open"
    );
    let with_own = Message::from_paragraphs(
        &message_lines_of(&["Subject", "Key: value"]),
        vec![message_trailer("Other", "x")],
    );
    assert_eq!(with_own.trailers, vec![message_trailer("Key", "value"), message_trailer("Other", "x")]);
    let empty = Message::from_paragraphs(&vec![], vec![]);
    assert_eq!(empty.subject, "");
}

#[test]
fn comments_are_left_out() {
    let lines = message_lines_of(&["Subject", "# a hint", "", " # indented", "#", "text # here"]);
    assert_eq!(
        without_comments(&lines),
        message_lines_of(&["Subject", "", " # indented", "text # here"])
    );
}
