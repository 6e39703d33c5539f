//! The lines in which messages are shown.
//!
//! An entry of a list is one line: the id, the date and the subject. In full
//! a message is shown with a head of id, author and date, then its subject
//! and its text.

use std::fmt::Write;
use vstd::prelude::*;
use vstd::slice::slice_subrange;
use crate::message::{message_lines, parse_text, Message};
use crate::oid::Oid;
use crate::repository::{Commit, Signature};
use crate::seqs::{lemma_leading_at, lemma_trailing_at, trailing};
use crate::text::{
    chars_of, index_of_char, lemma_views_push, other_than, string_of, trim, trimmed, views,
};
use crate::time::Time;
use crate::trailer::{int_chars, int_text};

verus! {

/// The text of a time in a format of `strftime`: the time is given by the
/// seconds since the epoch, its time zone by the offset from universal time
/// in seconds. There is none where the numbers are out of range or the
/// format is not one.
pub uninterp spec fn time_text(seconds: i64, offset_seconds: i32, format: Seq<char>) -> Option<
    Seq<char>,
>;

/// The view of an optional string.
pub open spec fn text_view(s: Option<String>) -> Option<Seq<char>> {
    match s {
        Some(x) => Some(x@),
        None => None,
    }
}

/// Formats a time. This is `chrono::DateTime::format`, written out, on the
/// time that `chrono::TimeZone::timestamp_opt` makes of the seconds in the
/// time zone that `chrono::FixedOffset::east_opt` makes of the offset. The
/// result is `None` where chrono makes no time zone or no time of the
/// numbers, or does not take the format. The text depends on nothing but the
/// three arguments.
#[verifier::external_body]
fn format_time(seconds: i64, offset_seconds: i32, format: &str) -> (r: Option<String>)
    ensures
        text_view(r) == time_text(seconds, offset_seconds, format@),
{
    let zone = chrono::FixedOffset::east_opt(offset_seconds)?;
    let date = chrono::TimeZone::timestamp_opt(&zone, seconds, 0).single()?;
    let mut out = String::new();
    write!(out, "{}", date.format(format)).ok()?;
    Some(out)
}

/// The text of a time in a format of `strftime`. There is none where the
/// offset is a day or more.
pub open spec fn date_text_of(time: Time, format: Seq<char>) -> Option<Seq<char>> {
    if -1440 < time.offset < 1440 {
        time_text(time.seconds, (time.offset * 60) as i32, format)
    } else {
        None
    }
}

/// The text of a time in a format of `strftime`, if there is one.
pub fn date_text(time: Time, format: &str) -> (r: Option<String>)
    ensures
        text_view(r) == date_text_of(time, format@),
{
    if -1440 < time.offset && time.offset < 1440 {
        format_time(time.seconds, time.offset * 60, format)
    } else {
        None
    }
}

/// The date as it is shown: its text, or the number of seconds where it has
/// none.
pub open spec fn shown_date(date: Option<Seq<char>>, seconds: i64) -> Seq<char> {
    match date {
        Some(d) => d,
        None => int_text(seconds as int),
    }
}

/// The date as it is shown: its text, or the number of seconds where it has
/// none.
pub fn date_or_seconds(date: Option<String>, seconds: i64) -> (r: String)
    ensures
        r@ == shown_date(text_view(date), seconds),
{
    match date {
        Some(d) => d,
        None => {
            let v = int_chars(seconds);
            string_of(v.as_slice())
        },
    }
}

/// The first `len` digits of the text of an id, or all of them where there
/// are fewer.
pub open spec fn abbreviation(id: Oid, len: nat) -> Seq<char> {
    if len < id.hex().len() {
        id.hex().take(len as int)
    } else {
        id.hex()
    }
}

/// The first `len` digits of the text of an id.
pub fn abbreviated(id: &Oid, len: usize) -> (r: String)
    ensures
        r@ == abbreviation(*id, len as nat),
{
    let mut v = id.to_chars();
    if len < v.len() {
        v.truncate(len);
    }
    string_of(v.as_slice())
}

/// A signer as text: the name, and the address in angle brackets.
pub open spec fn signer_text(name: Seq<char>, email: Seq<char>) -> Seq<char> {
    name + seq![' ', '<'] + email + seq!['>']
}

/// The signer of a signature as text.
pub fn signer(signature: &Signature) -> (r: String)
    ensures
        r@ == signer_text(signature.name@, signature.email@),
{
    let mut out = chars_of(signature.name.as_str());
    out.push(' ');
    out.push('<');
    let mut email = chars_of(signature.email.as_str());
    out.append(&mut email);
    out.push('>');
    proof {
        assert(out@ =~= signer_text(signature.name@, signature.email@));
    }
    string_of(out.as_slice())
}

/// Whether a text names a signer: it holds a `<` and behind it a `>`.
pub open spec fn is_signer(s: Seq<char>) -> bool {
    let open = index_of_char(s, '<');
    let tail = trailing(s, other_than('>'));
    open < s.len() && tail < s.len() && open < s.len() - tail - 1
}

/// The name of the signer that a text names: what stands before the first
/// `<`, without white space around it.
pub open spec fn signer_name(s: Seq<char>) -> Seq<char> {
    trim(s.take(index_of_char(s, '<') as int))
}

/// The address of the signer that a text names: what stands between the
/// first `<` and the last `>`, without white space around it.
pub open spec fn signer_email(s: Seq<char>) -> Seq<char> {
    trim(
        s.subrange(
            index_of_char(s, '<') as int + 1,
            s.len() - trailing(s, other_than('>')) - 1,
        ),
    )
}

/// Reads a signer, written as the name and the address in angle brackets:
/// gives the name and the address, or `None` where the text names no
/// signer.
pub fn read_signer(text: &str) -> (r: Option<(String, String)>)
    ensures
        r is Some <==> is_signer(text@),
        r is Some ==> r.unwrap().0@ == signer_name(text@) && r.unwrap().1@ == signer_email(
            text@,
        ),
{
    let v = chars_of(text);
    let n = v.len();
    let mut open: usize = 0;
    while open < n && v[open] != '<'
        invariant
            open <= n,
            n == v.len(),
            forall|j: int| 0 <= j < open ==> other_than('<')(#[trigger] v@[j]),
        decreases n - open,
    {
        open += 1;
    }
    let mut close: usize = n;
    while close > 0 && v[close - 1] != '>'
        invariant
            close <= n,
            n == v.len(),
            forall|j: int| close <= j < n ==> other_than('>')(#[trigger] v@[j]),
        decreases close,
    {
        close -= 1;
    }
    proof {
        assert(open < n ==> !other_than('<')(v@[open as int]));
        lemma_leading_at(v@, other_than('<'), open as int);
        assert(close > 0 ==> !other_than('>')(v@[close - 1]));
        lemma_trailing_at(v@, other_than('>'), n - close);
    }
    if open < n && close > 0 && open < close - 1 {
        let name = trimmed(slice_subrange(v.as_slice(), 0, open));
        let email = trimmed(slice_subrange(v.as_slice(), open + 1, close - 1));
        Some((string_of(name.as_slice()), string_of(email.as_slice())))
    } else {
        None
    }
}

/// The line of a message in a list: the id, the date in round brackets, the
/// subject.
pub open spec fn summary_text(id: Seq<char>, date: Seq<char>, subject: Seq<char>) -> Seq<char> {
    id + seq![' ', '('] + date + seq![')', ' '] + subject
}

/// The line of a message in a list.
pub fn summary_line(id: &str, date: &str, subject: &str) -> (r: String)
    ensures
        r@ == summary_text(id@, date@, subject@),
{
    let mut out = chars_of(id);
    out.push(' ');
    out.push('(');
    let mut d = chars_of(date);
    out.append(&mut d);
    out.push(')');
    out.push(' ');
    let mut s = chars_of(subject);
    out.append(&mut s);
    proof {
        assert(out@ =~= summary_text(id@, date@, subject@));
    }
    string_of(out.as_slice())
}

/// The line of a message in a tree of messages: the id, the author, the
/// subject.
pub open spec fn tree_text(id: Seq<char>, author: Seq<char>, subject: Seq<char>) -> Seq<char> {
    id + seq![' '] + author + seq![' '] + subject
}

/// The line of a message in a tree of messages.
pub fn tree_line(id: &str, author: &str, subject: &str) -> (r: String)
    ensures
        r@ == tree_text(id@, author@, subject@),
{
    let mut out = chars_of(id);
    out.push(' ');
    let mut a = chars_of(author);
    out.append(&mut a);
    out.push(' ');
    let mut s = chars_of(subject);
    out.append(&mut s);
    proof {
        assert(out@ =~= tree_text(id@, author@, subject@));
    }
    string_of(out.as_slice())
}

/// The lines of a message shown in full: the id, marked where the message
/// is the head of its issue; the author; the date; an empty line; the
/// subject; an empty line; the given text; an empty line.
pub open spec fn full_text(
    id: Seq<char>,
    head: bool,
    author: Seq<char>,
    date: Seq<char>,
    subject: Seq<char>,
    text: Seq<Seq<char>>,
) -> Seq<Seq<char>> {
    seq![
        id + (if head {
            " (head)"@
        } else {
            Seq::empty()
        }),
        "Author: "@ + author,
        "Date: "@ + date,
        Seq::empty(),
        subject,
        Seq::empty(),
    ] + text + seq![Seq::empty()]
}

/// The text behind its label.
fn labelled(label: &str, text: &str) -> (r: String)
    ensures
        r@ == label@ + text@,
{
    let mut out = chars_of(label);
    let mut t = chars_of(text);
    out.append(&mut t);
    string_of(out.as_slice())
}

/// The lines of a message shown in full.
pub fn full_lines(
    id: &str,
    head: bool,
    author: &str,
    date: &str,
    subject: &str,
    text: &Vec<String>,
) -> (out: Vec<String>)
    ensures
        views(out@) == full_text(id@, head, author@, date@, subject@, views(text@)),
{
    let mut out: Vec<String> = Vec::new();
    out.push(labelled(id, if head {
        " (head)"
    } else {
        ""
    }));
    out.push(labelled("Author: ", author));
    out.push(labelled("Date: ", date));
    out.push(String::new());
    out.push(subject.to_owned());
    out.push(String::new());
    let ghost start = views(out@);
    proof {
        reveal_strlit("");
        assert(""@ =~= Seq::<char>::empty());
        assert(start =~= seq![
            id@ + (if head {
                " (head)"@
            } else {
                Seq::empty()
            }),
            "Author: "@ + author@,
            "Date: "@ + date@,
            Seq::empty(),
            subject@,
            Seq::empty(),
        ]);
        assert(views(text@).take(0) =~= Seq::<Seq<char>>::empty());
        assert(views(out@) =~= start + views(text@).take(0));
    }
    let mut i: usize = 0;
    while i < text.len()
        invariant
            i <= text.len(),
            views(out@) == start + views(text@).take(i as int),
        decreases text.len() - i,
    {
        let l = text[i].clone();
        proof {
            lemma_views_push(out@, l);
            assert(views(text@).take(i + 1) =~= views(text@).take(i as int).push(l@));
            assert(views(out@).push(l@) =~= start + views(text@).take(i + 1));
        }
        out.push(l);
        i += 1;
    }
    let ghost before = views(out@);
    out.push(String::new());
    proof {
        assert(views(text@).take(text.len() as int) =~= views(text@));
        assert(views(out@) =~= before.push(Seq::empty()));
        assert(views(out@) =~= full_text(id@, head, author@, date@, subject@, views(text@)));
    }
    out
}

/// The date of a message as it is shown in a format of `strftime`: the time
/// at which the author signed.
pub open spec fn message_date(commit: Commit, format: Seq<char>) -> Seq<char> {
    shown_date(date_text_of(commit.author.time, format), commit.author.time.seconds)
}

/// The lines of a message in the list of issues. In short it is one line:
/// the id, the date as the format `%c` gives it, and the subject. At length
/// the message is shown in full, with the date as the format `%+` gives it
/// and the body without the trailers.
pub open spec fn list_text(commit: Commit, id_len: nat, long: bool) -> Seq<Seq<char>> {
    let message = parse_text(commit.message@);
    if long {
        full_text(
            abbreviation(commit.id, id_len),
            false,
            signer_text(commit.author.name@, commit.author.email@),
            message_date(commit, "%+"@),
            message.subject,
            message.body,
        )
    } else {
        seq![
            summary_text(
                abbreviation(commit.id, id_len),
                message_date(commit, "%c"@),
                message.subject,
            ),
        ]
    }
}

/// The lines of a message in the list of issues.
pub fn list_entry(commit: &Commit, id_len: usize, long: bool) -> (out: Vec<String>)
    ensures
        views(out@) == list_text(*commit, id_len as nat, long),
{
    let message = Message::parse(commit.message.as_str());
    let id = abbreviated(&commit.id, id_len);
    if long {
        let date = date_or_seconds(date_text(commit.author.time, "%+"), commit.author.time.seconds);
        let author = signer(&commit.author);
        full_lines(
            id.as_str(),
            false,
            author.as_str(),
            date.as_str(),
            message.subject.as_str(),
            &message.body,
        )
    } else {
        let date = date_or_seconds(date_text(commit.author.time, "%c"), commit.author.time.seconds);
        let mut out: Vec<String> = Vec::new();
        out.push(summary_line(id.as_str(), date.as_str(), message.subject.as_str()));
        proof {
            assert(views(out@) =~= list_text(*commit, id_len as nat, long));
        }
        out
    }
}

/// The lines of a message among the messages of its issue. In short it is
/// one line: the id, the author and the subject. At length the message is
/// shown in full, marked where it is the head, with the date as the format
/// `%+` gives it and with all lines behind the subject, trailers included.
pub open spec fn show_text(commit: Commit, id_len: nat, head: Option<Oid>, short: bool) -> Seq<
    Seq<char>,
> {
    let message = parse_text(commit.message@);
    if short {
        seq![
            tree_text(
                abbreviation(commit.id, id_len),
                signer_text(commit.author.name@, commit.author.email@),
                message.subject,
            ),
        ]
    } else {
        full_text(
            abbreviation(commit.id, id_len),
            head == Some(commit.id),
            signer_text(commit.author.name@, commit.author.email@),
            message_date(commit, "%+"@),
            message.subject,
            if message_lines(message).len() > 2 {
                message_lines(message).skip(2)
            } else {
                Seq::empty()
            },
        )
    }
}

/// The lines of a message among the messages of its issue.
pub fn show_entry(commit: &Commit, id_len: usize, head: Option<Oid>, short: bool) -> (out: Vec<
    String,
>)
    ensures
        views(out@) == show_text(*commit, id_len as nat, head, short),
{
    let message = Message::parse(commit.message.as_str());
    let id = abbreviated(&commit.id, id_len);
    let author = signer(&commit.author);
    if short {
        let mut out: Vec<String> = Vec::new();
        out.push(tree_line(id.as_str(), author.as_str(), message.subject.as_str()));
        proof {
            assert(views(out@) =~= show_text(*commit, id_len as nat, head, short));
        }
        out
    } else {
        let date = date_or_seconds(date_text(commit.author.time, "%+"), commit.author.time.seconds);
        let is_head = match head {
            Some(h) => h.same(&commit.id),
            None => false,
        };
        let lines = message.lines();
        let mut text: Vec<String> = Vec::new();
        if lines.len() > 2 {
            let mut i: usize = 2;
            proof {
                assert(views(text@) =~= views(lines@).subrange(2, 2));
            }
            while i < lines.len()
                invariant
                    2 <= i <= lines.len(),
                    views(text@) == views(lines@).subrange(2, i as int),
                decreases lines.len() - i,
            {
                let l = lines[i].clone();
                proof {
                    lemma_views_push(text@, l);
                    assert(views(lines@).subrange(2, i as int).push(l@) =~= views(
                        lines@,
                    ).subrange(2, i + 1));
                }
                text.push(l);
                i += 1;
            }
            proof {
                assert(views(text@) =~= message_lines(message@).skip(2));
            }
        } else {
            proof {
                assert(views(text@) =~= Seq::<Seq<char>>::empty());
            }
        }
        full_lines(
            id.as_str(),
            is_head,
            author.as_str(),
            date.as_str(),
            message.subject.as_str(),
            &text,
        )
    }
}

} // verus!
