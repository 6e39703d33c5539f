//! The text of a message: subject, body lines and trailers.
//!
//! A message is a text of lines. The first line that is not blank is the
//! subject. An empty line separates it from the body. The trailers are the
//! run of trailer-shaped lines at the end, where a blank line or the start of
//! the body stands before that run.

use vstd::prelude::*;
use crate::error::Error;
use crate::seqs::{leading, lemma_leading_at, lemma_trailing_at, trailing};
use crate::text::{
    blank, blank_line, char_views, chars_of, is_blank, is_line, is_space, join_lines,
    lemma_join_push, lemma_split_join, lemma_views_push, lines_of, split_lines, string_of, trim,
    trimmed, views,
};
use crate::trailer::{
    canonical_trailer, is_key_char, is_trailer_line, lemma_trailer_round_trip, trailer_line,
    trailer_of_chars, trailer_of_line, trailer_shaped, trailer_views, value_text, Trailer,
    TrailerView,
};

verus! {

/// A message, taken apart.
#[derive(Clone, Debug, PartialEq, Eq)]
pub struct Message {
    /// The subject, without white space around it.
    pub subject: String,
    /// The lines between the subject and the trailers.
    pub body: Vec<String>,
    /// The trailers, in the order of their lines.
    pub trailers: Vec<Trailer>,
}

/// What a `Message` stands for.
pub struct MessageView {
    pub subject: Seq<char>,
    pub body: Seq<Seq<char>>,
    pub trailers: Seq<TrailerView>,
}

impl View for Message {
    type V = MessageView;

    open spec fn view(&self) -> MessageView {
        MessageView {
            subject: self.subject@,
            body: views(self.body@),
            trailers: trailer_views(self.trailers@),
        }
    }
}

/// The test for trailer-shaped lines, as a value.
pub open spec fn trailer_shape() -> spec_fn(Seq<char>) -> bool {
    |l: Seq<char>| is_trailer_line(l)
}

/// The number of lines of the trailer block at the end of `region`, the
/// lines behind the subject and its separator: the length of the run of
/// trailer-shaped lines at its end where a blank line, or nothing, stands
/// before that run, and zero otherwise.
pub open spec fn trailer_block_len(region: Seq<Seq<char>>) -> nat {
    let k = trailing(region, trailer_shape());
    let n = region.len();
    if k > 0 && (k == n || is_blank(region[n - k - 1])) {
        k
    } else {
        0
    }
}

/// The body lines of `region`: all of it where it has no trailer block, and
/// what stands before the blank line in front of the block otherwise.
pub open spec fn region_body(region: Seq<Seq<char>>) -> Seq<Seq<char>> {
    let k = trailer_block_len(region);
    let n = region.len();
    if k == 0 {
        region
    } else if k == n {
        Seq::empty()
    } else {
        region.take(n - k - 1)
    }
}

/// The trailers of `region`: one for each line of its trailer block.
pub open spec fn region_trailers(region: Seq<Seq<char>>) -> Seq<TrailerView> {
    let k = trailer_block_len(region);
    let n = region.len();
    Seq::new(k, |i: int| trailer_of_line(region[n - k + i]))
}

/// The lines behind the subject that belong to body and trailers: `after`
/// without the blank lines at its end and without one blank line at its
/// start.
pub open spec fn message_region(after: Seq<Seq<char>>) -> Seq<Seq<char>> {
    let kept = after.take(after.len() - trailing(after, blank_line()));
    if kept.len() > 0 && is_blank(kept[0]) {
        kept.skip(1)
    } else {
        kept
    }
}

/// The message without subject, body and trailers.
pub open spec fn empty_message() -> MessageView {
    MessageView { subject: Seq::empty(), body: Seq::empty(), trailers: Seq::empty() }
}

/// The message that the given lines hold. Where every line is blank it is
/// the empty message.
pub open spec fn parse_lines(lines: Seq<Seq<char>>) -> MessageView {
    let s = leading(lines, blank_line()) as int;
    if s >= lines.len() {
        empty_message()
    } else {
        let region = message_region(lines.skip(s + 1));
        MessageView {
            subject: trim(lines[s]),
            body: region_body(region),
            trailers: region_trailers(region),
        }
    }
}

/// The message that a text holds.
pub open spec fn parse_text(text: Seq<char>) -> MessageView {
    parse_lines(split_lines(text))
}

/// The lines of the trailers.
pub open spec fn trailer_lines(trailers: Seq<TrailerView>) -> Seq<Seq<char>> {
    Seq::new(trailers.len(), |i: int| trailer_line(trailers[i]))
}

/// The lines of a message: the subject; an empty line and the body, where
/// there is a body; an empty line and the trailers, where there are
/// trailers.
pub open spec fn message_lines(m: MessageView) -> Seq<Seq<char>> {
    seq![m.subject] + (if m.body.len() > 0 {
        seq![Seq::<char>::empty()] + m.body
    } else {
        Seq::empty()
    }) + (if m.trailers.len() > 0 {
        seq![Seq::<char>::empty()] + trailer_lines(m.trailers)
    } else {
        Seq::empty()
    })
}

/// The text of a message: its lines, each followed by a line feed.
pub open spec fn message_text(m: MessageView) -> Seq<char> {
    join_lines(message_lines(m))
}

/// The rules that the parts of a message follow if its text is to hold
/// exactly these parts.
///
/// The subject is one line, not blank, without white space around it. Each
/// body line is one line. Where there are no trailers, the body does not end
/// with a blank line, and its end does not read as a trailer block. Each
/// trailer is canonical and its value is one line.
pub open spec fn well_formed(m: MessageView) -> bool {
    &&& is_line(m.subject)
    &&& !is_blank(m.subject)
    &&& trim(m.subject) == m.subject
    &&& forall|i: int| 0 <= i < m.body.len() ==> is_line(#[trigger] m.body[i])
    &&& (m.trailers.len() == 0 && m.body.len() > 0) ==> (!is_blank(m.body.last())
        && trailer_block_len(m.body) == 0)
    &&& forall|i: int|
        0 <= i < m.trailers.len() ==> canonical_trailer(#[trigger] m.trailers[i]) && is_line(
            value_text(m.trailers[i].value),
        )
}

/// The line of a canonical trailer with a value of one line is one line,
/// not blank, and holds that trailer.
proof fn lemma_trailer_line_shape(t: TrailerView)
    requires
        canonical_trailer(t),
        is_line(value_text(t.value)),
    ensures
        is_trailer_line(trailer_line(t)),
        trailer_of_line(trailer_line(t)) == t,
        !is_blank(trailer_line(t)),
        is_line(trailer_line(t)),
{
    lemma_trailer_round_trip(t);
    let l = trailer_line(t);
    assert(l[0] == t.key[0]);
    assert(is_key_char(t.key[0]));
    assert(!is_space(l[0]));
    assert forall|i: int| 0 <= i < l.len() implies #[trigger] l[i] != '\n' by {
        if i < t.key.len() {
            assert(l[i] == t.key[i]);
            assert(is_key_char(t.key[i]));
        } else if i >= t.key.len() + 2 {
            assert(l[i] == value_text(t.value)[i - t.key.len() - 2]);
        }
    }
}

/// Reading the text of a well-formed message gives the message back.
pub proof fn lemma_parse_serialize(m: MessageView)
    requires
        well_formed(m),
    ensures
        parse_text(message_text(m)) == m,
{
    let lines = message_lines(m);
    let tl = trailer_lines(m.trailers);
    let e = Seq::<char>::empty();
    assert forall|i: int| 0 <= i < tl.len() implies is_trailer_line(#[trigger] tl[i]) && !is_blank(
        tl[i],
    ) && is_line(tl[i]) && trailer_of_line(tl[i]) == m.trailers[i] by {
        lemma_trailer_line_shape(m.trailers[i]);
    }
    assert(is_blank(e));
    assert(!is_trailer_line(e));
    assert(is_line(e));
    // The text splits into the lines it was joined from.
    let nb = m.body.len() as int;
    let nt = m.trailers.len() as int;
    assert forall|i: int| 0 <= i < lines.len() implies is_line(#[trigger] lines[i]) by {
        if i == 0 {
        } else if nb > 0 && i <= nb + 1 {
            if i == 1 {
                assert(lines[i] == e);
            } else {
                assert(lines[i] == m.body[i - 2]);
            }
        } else {
            let off = if nb > 0 {
                nb + 1
            } else {
                0
            };
            if i == off + 1 {
                assert(lines[i] == e);
            } else {
                assert(lines[i] == tl[i - off - 2]);
            }
        }
    }
    lemma_split_join(lines);
    // The subject is the first line.
    assert(lines[0] == m.subject);
    lemma_leading_at(lines, blank_line(), 0);
    let after = lines.skip(1);
    let region = message_region(after);
    if nb == 0 && nt == 0 {
        assert(after =~= Seq::<Seq<char>>::empty());
        lemma_trailing_at(after, blank_line(), 0);
        assert(after.take(0) =~= Seq::<Seq<char>>::empty());
        assert(region =~= Seq::<Seq<char>>::empty());
        lemma_trailing_at(region, trailer_shape(), 0);
        assert(region_body(region) =~= m.body);
        assert(region_trailers(region) =~= m.trailers);
    } else if nt == 0 {
        assert(after =~= seq![e] + m.body);
        assert(after.last() == m.body.last());
        lemma_trailing_at(after, blank_line(), 0);
        assert(after.take(after.len() as int) =~= after);
        assert(after[0] == e);
        assert(region =~= m.body);
        assert(region_body(region) =~= m.body);
        assert(region_trailers(region) =~= m.trailers);
    } else if nb == 0 {
        assert(after =~= seq![e] + tl);
        assert(after.last() == tl.last());
        lemma_trailing_at(after, blank_line(), 0);
        assert(after.take(after.len() as int) =~= after);
        assert(after[0] == e);
        assert(region =~= tl);
        lemma_trailing_at(region, trailer_shape(), nt);
        assert(region_body(region) =~= m.body);
        assert(region_trailers(region) =~= m.trailers);
    } else {
        assert(after =~= seq![e] + m.body + seq![e] + tl);
        assert(after.last() == tl.last());
        lemma_trailing_at(after, blank_line(), 0);
        assert(after.take(after.len() as int) =~= after);
        assert(after[0] == e);
        assert(region =~= m.body + seq![e] + tl);
        assert(region[nb] == e);
        assert forall|j: int| region.len() - nt <= j < region.len() implies trailer_shape()(
            #[trigger] region[j],
        ) by {
            assert(region[j] == tl[j - nb - 1]);
        }
        lemma_trailing_at(region, trailer_shape(), nt);
        assert(region.take(nb) =~= m.body);
        assert(region_body(region) =~= m.body);
        assert forall|i: int| 0 <= i < nt implies #[trigger] region_trailers(region)[i]
            == m.trailers[i] by {
            assert(region[region.len() - nt + i] == tl[i]);
        }
        assert(region_trailers(region) =~= m.trailers);
    }
}

impl Message {
    /// Takes a text apart into subject, body lines and trailers. Every text
    /// is accepted; the empty text gives the empty message.
    pub fn parse(text: &str) -> (m: Message)
        ensures
            m@ == parse_text(text@),
    {
        let chars = chars_of(text);
        let lines = lines_of(chars.as_slice());
        Message::from_lines(&lines)
    }

    /// The message that the given lines hold.
    pub fn from_lines(lines: &Vec<Vec<char>>) -> (m: Message)
        ensures
            m@ == parse_lines(char_views(lines@)),
    {
        let ghost ls = char_views(lines@);
        let n = lines.len();
        let mut s: usize = 0;
        while s < n && blank(lines[s].as_slice())
            invariant
                s <= n,
                n == lines.len(),
                ls == char_views(lines@),
                forall|j: int| 0 <= j < s ==> is_blank(#[trigger] ls[j]),
            decreases n - s,
        {
            s += 1;
        }
        proof {
            assert(s < n ==> !blank_line()(ls[s as int]));
            lemma_leading_at(ls, blank_line(), s as int);
        }
        if s == n {
            let m = Message { subject: String::new(), body: Vec::new(), trailers: Vec::new() };
            proof {
                assert(m@.body =~= Seq::<Seq<char>>::empty());
                assert(m@.trailers =~= Seq::<TrailerView>::empty());
            }
            return m;
        }
        let subject_chars = trimmed(lines[s].as_slice());
        let subject = string_of(subject_chars.as_slice());
        let ghost after = ls.skip(s + 1);
        let mut end: usize = n;
        while end > s + 1 && blank(lines[end - 1].as_slice())
            invariant
                s + 1 <= end <= n,
                n == lines.len(),
                ls == char_views(lines@),
                forall|j: int| end <= j < n ==> is_blank(#[trigger] ls[j]),
            decreases end,
        {
            end -= 1;
        }
        proof {
            assert forall|j: int| after.len() - (n - end) <= j < after.len() implies blank_line()(
                #[trigger] after[j],
            ) by {
                assert(after[j] == ls[j + s + 1]);
            }
            if n - end < after.len() {
                assert(after[after.len() - (n - end) - 1] == ls[end - 1]);
            }
            lemma_trailing_at(after, blank_line(), n - end);
        }
        let ghost kept = after.take(after.len() - (n - end));
        assert(kept =~= ls.subrange(s + 1, end as int));
        let mut start: usize = s + 1;
        if start < end && blank(lines[start].as_slice()) {
            start += 1;
        }
        let ghost region = message_region(after);
        assert(region =~= ls.subrange(start as int, end as int));
        let mut t: usize = end;
        while t > start && trailer_shaped(lines[t - 1].as_slice())
            invariant
                start <= t <= end <= n,
                n == lines.len(),
                ls == char_views(lines@),
                forall|j: int| t <= j < end ==> is_trailer_line(#[trigger] ls[j]),
            decreases t,
        {
            t -= 1;
        }
        proof {
            let k = end - t;
            assert forall|j: int| region.len() - k <= j < region.len() implies trailer_shape()(
                #[trigger] region[j],
            ) by {
                assert(region[j] == ls[j + start]);
            }
            if k < region.len() {
                assert(region[region.len() - k - 1] == ls[t - 1]);
            }
            lemma_trailing_at(region, trailer_shape(), k);
        }
        let has_block = t < end && (t == start || blank(lines[t - 1].as_slice()));
        proof {
            if t < end && t > start {
                assert(region[region.len() - (end - t) - 1] == ls[t - 1]);
            }
            assert(has_block <==> trailer_block_len(region) > 0);
            assert(has_block ==> trailer_block_len(region) == end - t);
        }
        let body_end: usize = if has_block {
            if t == start {
                start
            } else {
                (t - 1) as usize
            }
        } else {
            end
        };
        let trailers_start: usize = if has_block {
            t
        } else {
            end
        };
        let body = strings_of(lines, start, body_end);
        let trailers = trailers_of(lines, trailers_start, end);
        let m = Message { subject, body, trailers };
        proof {
            assert(m@.body =~= region_body(region));
            assert(m@.trailers =~= region_trailers(region)) by {
                let k = trailer_block_len(region);
                assert(k == end - trailers_start);
                assert forall|i: int| 0 <= i < k implies #[trigger] m@.trailers[i]
                    == region_trailers(region)[i] by {
                    assert(region[region.len() - k + i] == ls[trailers_start + i]);
                }
            }
        }
        m
    }

    /// The lines of this message: the subject; an empty line and the body,
    /// where there is a body; an empty line and the trailers, where there
    /// are trailers.
    pub fn lines(&self) -> (out: Vec<String>)
        ensures
            views(out@) == message_lines(self@),
    {
        let mut out: Vec<String> = Vec::new();
        out.push(self.subject.clone());
        assert(views(out@) =~= seq![self@.subject]);
        if self.body.len() > 0 {
            out.push(String::new());
            assert(views(out@) =~= seq![self@.subject] + seq![Seq::<char>::empty()]);
            let ghost head = views(out@);
            let mut i: usize = 0;
            assert(self@.body.take(0) =~= Seq::<Seq<char>>::empty());
            assert(views(out@) =~= head + self@.body.take(0));
            while i < self.body.len()
                invariant
                    i <= self.body.len(),
                    views(out@) == head + self@.body.take(i as int),
                decreases self.body.len() - i,
            {
                let l = self.body[i].clone();
                proof {
                    lemma_views_push(out@, l);
                    assert(self@.body.take(i + 1) =~= self@.body.take(i as int).push(l@));
                    assert(views(out@).push(l@) =~= head + self@.body.take(i + 1));
                }
                out.push(l);
                i += 1;
            }
            assert(self@.body.take(self.body.len() as int) =~= self@.body);
        }
        let ghost first = views(out@);
        proof {
            assert(first =~= seq![self@.subject] + (if self@.body.len() > 0 {
                seq![Seq::<char>::empty()] + self@.body
            } else {
                Seq::empty()
            }));
        }
        if self.trailers.len() > 0 {
            let ghost tl = trailer_lines(self@.trailers);
            out.push(String::new());
            let ghost head = views(out@);
            assert(head =~= first + seq![Seq::<char>::empty()]);
            let mut i: usize = 0;
            assert(tl.take(0) =~= Seq::<Seq<char>>::empty());
            assert(views(out@) =~= head + tl.take(0));
            while i < self.trailers.len()
                invariant
                    i <= self.trailers.len(),
                    tl == trailer_lines(self@.trailers),
                    views(out@) == head + tl.take(i as int),
                decreases self.trailers.len() - i,
            {
                let l = self.trailers[i].to_string();
                proof {
                    lemma_views_push(out@, l);
                    assert(tl[i as int] == l@);
                    assert(tl.take(i + 1) =~= tl.take(i as int).push(l@));
                    assert(views(out@).push(l@) =~= head + tl.take(i + 1));
                }
                out.push(l);
                i += 1;
            }
            assert(tl.take(self.trailers.len() as int) =~= tl);
            assert(views(out@) =~= first + (seq![Seq::<char>::empty()] + tl));
            assert(views(out@) =~= message_lines(self@));
        } else {
            assert(views(out@) =~= first + Seq::<Seq<char>>::empty());
            assert(views(out@) =~= message_lines(self@));
        }
        out
    }

    /// The text of this message: its lines, each followed by a line feed.
    pub fn serialize(&self) -> (out: String)
        ensures
            out@ == message_text(self@),
    {
        let lines = self.lines();
        join(&lines)
    }

    /// The text of this message as it is committed: without white space
    /// around it.
    pub fn text(&self) -> (out: String)
        ensures
            out@ == trim(message_text(self@)),
    {
        let full = self.serialize();
        let v = chars_of(full.as_str());
        let t = trimmed(v.as_slice());
        string_of(t.as_slice())
    }

    /// The message that is given on a command line: its text is made of
    /// the paragraphs, with an empty line between each two of them, and the
    /// given trailers stand behind those of the text.
    pub fn from_paragraphs(paragraphs: &Vec<String>, trailers: Vec<Trailer>) -> (m: Message)
        ensures
            m@.subject == parse_text(join_lines(spaced(views(paragraphs@)))).subject,
            m@.body == parse_text(join_lines(spaced(views(paragraphs@)))).body,
            m@.trailers == parse_text(join_lines(spaced(views(paragraphs@)))).trailers
                + trailer_views(trailers@),
    {
        let mut lines: Vec<String> = Vec::new();
        let mut i: usize = 0;
        let ghost ps = views(paragraphs@);
        proof {
            assert(ps.take(0) =~= Seq::<Seq<char>>::empty());
            assert(views(lines@) =~= spaced(ps.take(0)));
        }
        while i < paragraphs.len()
            invariant
                i <= paragraphs.len(),
                ps == views(paragraphs@),
                views(lines@) == spaced(ps.take(i as int)),
            decreases paragraphs.len() - i,
        {
            proof {
                assert(ps.take(i + 1).drop_last() =~= ps.take(i as int));
                assert(ps.take(i + 1).last() == ps[i as int]);
            }
            let ghost before = views(lines@);
            if i > 0 {
                lines.push(String::new());
            }
            let p = paragraphs[i].clone();
            lines.push(p);
            proof {
                if i > 0 {
                    assert(views(lines@) =~= before + seq![Seq::<char>::empty(), ps[i as int]]);
                } else {
                    assert(views(lines@) =~= before + seq![ps[i as int]]);
                }
            }
            i += 1;
        }
        proof {
            assert(ps.take(paragraphs.len() as int) =~= ps);
        }
        let text = join(&lines);
        let mut m = Message::parse(text.as_str());
        let ghost own = trailer_views(m.trailers@);
        let mut more = trailers;
        m.trailers.append(&mut more);
        proof {
            assert(trailer_views(m.trailers@) =~= own + trailer_views(trailers@));
        }
        m
    }

    /// The message with which a reply to `parent` starts: its subject is
    /// that of a reply to the subject of `parent`, its body is the quoted
    /// body of `parent` if `quoting` is set and empty otherwise, and its
    /// trailers are the given ones.
    pub fn reply_to(parent: &Message, quoting: bool, trailers: Vec<Trailer>) -> (m: Message)
        ensures
            m@.subject == reply_subject_of(parent@.subject),
            m@.body == if quoting {
                quoted(parent@.body)
            } else {
                Seq::<Seq<char>>::empty()
            },
            m@.trailers == trailer_views(trailers@),
    {
        let subject = reply_subject(parent.subject.as_str());
        let body = if quoting {
            quote(&parent.body)
        } else {
            let b: Vec<String> = Vec::new();
            proof {
                assert(views(b@) =~= Seq::<Seq<char>>::empty());
            }
            b
        };
        Message { subject, body, trailers }
    }
}

/// The paragraphs with an empty line between each two of them.
pub open spec fn spaced(paragraphs: Seq<Seq<char>>) -> Seq<Seq<char>>
    decreases paragraphs.len(),
{
    if paragraphs.len() == 0 {
        Seq::empty()
    } else if paragraphs.len() == 1 {
        seq![paragraphs[0]]
    } else {
        spaced(paragraphs.drop_last()) + seq![Seq::<char>::empty(), paragraphs.last()]
    }
}

/// The lines from `a` up to `b`, as strings.
fn strings_of(lines: &Vec<Vec<char>>, a: usize, b: usize) -> (out: Vec<String>)
    requires
        a <= b <= lines.len(),
    ensures
        views(out@) == char_views(lines@).subrange(a as int, b as int),
{
    let ghost ls = char_views(lines@);
    let mut out: Vec<String> = Vec::new();
    let mut i: usize = a;
    assert(views(out@) =~= ls.subrange(a as int, a as int));
    while i < b
        invariant
            a <= i <= b <= lines.len(),
            ls == char_views(lines@),
            views(out@) == ls.subrange(a as int, i as int),
        decreases b - i,
    {
        let l = string_of(lines[i].as_slice());
        proof {
            lemma_views_push(out@, l);
            assert(l@ == ls[i as int]);
            assert(ls.subrange(a as int, i as int).push(l@) =~= ls.subrange(a as int, i + 1));
        }
        out.push(l);
        i += 1;
    }
    out
}

/// The trailers that the lines from `a` up to `b` hold.
fn trailers_of(lines: &Vec<Vec<char>>, a: usize, b: usize) -> (out: Vec<Trailer>)
    requires
        a <= b <= lines.len(),
        forall|j: int| a <= j < b ==> is_trailer_line(#[trigger] char_views(lines@)[j]),
    ensures
        trailer_views(out@) == Seq::new(
            (b - a) as nat,
            |i: int| trailer_of_line(char_views(lines@)[a + i]),
        ),
{
    let ghost ls = char_views(lines@);
    let mut out: Vec<Trailer> = Vec::new();
    let mut i: usize = a;
    while i < b
        invariant
            a <= i <= b <= lines.len(),
            ls == char_views(lines@),
            forall|j: int| a <= j < b ==> is_trailer_line(#[trigger] ls[j]),
            out.len() == i - a,
            forall|k: int| 0 <= k < i - a ==> (#[trigger] out@[k])@ == trailer_of_line(ls[a + k]),
        decreases b - i,
    {
        assert(is_trailer_line(ls[i as int]));
        let tr = trailer_of_chars(lines[i].as_slice());
        out.push(tr);
        i += 1;
    }
    proof {
        assert(trailer_views(out@) =~= Seq::new(
            (b - a) as nat,
            |i: int| trailer_of_line(ls[a + i]),
        ));
    }
    out
}

/// The text made of the given lines, each followed by a line feed.
pub fn join(lines: &Vec<String>) -> (out: String)
    ensures
        out@ == join_lines(views(lines@)),
{
    let mut buf: Vec<char> = Vec::new();
    let mut i: usize = 0;
    let ghost ls = views(lines@);
    while i < lines.len()
        invariant
            i <= lines.len(),
            ls == views(lines@),
            buf@ == join_lines(ls.take(i as int)),
        decreases lines.len() - i,
    {
        let mut l = chars_of(lines[i].as_str());
        proof {
            lemma_join_push(ls.take(i as int), ls[i as int]);
            assert(ls.take(i as int).push(ls[i as int]) =~= ls.take(i + 1));
        }
        buf.append(&mut l);
        buf.push('\n');
        proof {
            assert(buf@ =~= join_lines(ls.take(i as int)) + ls[i as int] + seq!['\n']);
        }
        i += 1;
    }
    proof {
        assert(ls.take(lines.len() as int) =~= ls);
    }
    string_of(buf.as_slice())
}

// ---------------------------------------------------------------------
// Format

/// Whether the end of `region`, the lines behind the subject and its
/// separator, is in order: the run of trailer-shaped lines at its end is
/// empty, or is all of `region`, or follows a blank line.
pub open spec fn trailer_block_ok(region: Seq<Seq<char>>) -> bool {
    let k = trailing(region, trailer_shape());
    let n = region.len();
    k == 0 || k == n || is_blank(region[n - k - 1])
}

/// The format of a message: the first line is not blank, the second line,
/// if there is one, is blank, and the trailer block, if there is one, follows
/// a blank line.
pub open spec fn format_ok(lines: Seq<Seq<char>>) -> bool {
    &&& lines.len() > 0
    &&& !is_blank(lines[0])
    &&& lines.len() > 1 ==> is_blank(lines[1])
    &&& trailer_block_ok(
        if lines.len() > 2 {
            lines.skip(2)
        } else {
            Seq::empty()
        },
    )
}

/// `lines` without the blank lines at its start and at its end.
pub open spec fn strip_blank_lines(lines: Seq<Seq<char>>) -> Seq<Seq<char>> {
    let rest = lines.skip(leading(lines, blank_line()) as int);
    rest.take(rest.len() - trailing(rest, blank_line()))
}

/// Whether the lines from `a` up to `b` have the format of a message.
fn format_ok_range(lines: &Vec<Vec<char>>, a: usize, b: usize) -> (r: bool)
    requires
        a <= b <= lines.len(),
    ensures
        r == format_ok(char_views(lines@).subrange(a as int, b as int)),
{
    let ghost ls = char_views(lines@);
    let ghost part = ls.subrange(a as int, b as int);
    if a == b {
        return false;
    }
    assert(part[0] == ls[a as int]);
    if blank(lines[a].as_slice()) {
        return false;
    }
    if b - a == 1 {
        proof {
            lemma_trailing_at(Seq::<Seq<char>>::empty(), trailer_shape(), 0);
        }
        return true;
    }
    assert(part[1] == ls[a + 1]);
    if !blank(lines[a + 1].as_slice()) {
        return false;
    }
    let start: usize = a + 2;
    let ghost region = if part.len() > 2 {
        part.skip(2)
    } else {
        Seq::empty()
    };
    assert(region =~= ls.subrange(start as int, b as int));
    let mut t: usize = b;
    while t > start && trailer_shaped(lines[t - 1].as_slice())
        invariant
            start <= t <= b <= lines.len(),
            ls == char_views(lines@),
            forall|j: int| t <= j < b ==> is_trailer_line(#[trigger] ls[j]),
        decreases t,
    {
        t -= 1;
    }
    proof {
        let k = b - t;
        assert forall|j: int| region.len() - k <= j < region.len() implies trailer_shape()(
            #[trigger] region[j],
        ) by {
            assert(region[j] == ls[j + start]);
        }
        if k < region.len() {
            assert(region[region.len() - k - 1] == ls[t - 1]);
        }
        lemma_trailing_at(region, trailer_shape(), k);
    }
    t == b || t == start || blank(lines[t - 1].as_slice())
}

/// The characters of each of the given strings.
pub fn chars_of_all(lines: &Vec<String>) -> (out: Vec<Vec<char>>)
    ensures
        char_views(out@) == views(lines@),
{
    let mut out: Vec<Vec<char>> = Vec::new();
    let mut i: usize = 0;
    while i < lines.len()
        invariant
            i <= lines.len(),
            out.len() == i,
            forall|k: int| 0 <= k < i ==> (#[trigger] out@[k])@ == lines@[k]@,
        decreases lines.len() - i,
    {
        let l = chars_of(lines[i].as_str());
        out.push(l);
        i += 1;
    }
    proof {
        assert(char_views(out@) =~= views(lines@));
    }
    out
}

/// Checks the format of a message, given as its lines: the first line is not
/// blank, the second line, if there is one, is blank, and the trailer block,
/// if there is one, follows a blank line.
pub fn check_format(lines: &Vec<String>) -> (r: Result<(), Error>)
    ensures
        format_ok(views(lines@)) ==> r is Ok,
        !format_ok(views(lines@)) ==> r == Err::<(), Error>(Error::MalformedMessage),
{
    let v = chars_of_all(lines);
    proof {
        assert(char_views(v@).subrange(0, v.len() as int) =~= views(lines@));
    }
    if format_ok_range(&v, 0, v.len()) {
        Ok(())
    } else {
        Err(Error::MalformedMessage)
    }
}

/// Checks the format of a message, given as a text: its lines, without the
/// blank lines at the start and at the end, are checked as `check_format`
/// does.
pub fn check_message(text: &str) -> (r: Result<(), Error>)
    ensures
        format_ok(strip_blank_lines(split_lines(text@))) ==> r is Ok,
        !format_ok(strip_blank_lines(split_lines(text@))) ==> r == Err::<(), Error>(
            Error::MalformedMessage,
        ),
{
    let chars = chars_of(text);
    let lines = lines_of(chars.as_slice());
    let ghost ls = char_views(lines@);
    let n = lines.len();
    let mut a: usize = 0;
    while a < n && blank(lines[a].as_slice())
        invariant
            a <= n,
            n == lines.len(),
            ls == char_views(lines@),
            forall|j: int| 0 <= j < a ==> is_blank(#[trigger] ls[j]),
        decreases n - a,
    {
        a += 1;
    }
    let mut b: usize = n;
    while b > a && blank(lines[b - 1].as_slice())
        invariant
            a <= b <= n,
            n == lines.len(),
            ls == char_views(lines@),
            forall|j: int| b <= j < n ==> is_blank(#[trigger] ls[j]),
        decreases b,
    {
        b -= 1;
    }
    proof {
        assert(a < n ==> !blank_line()(ls[a as int]));
        lemma_leading_at(ls, blank_line(), a as int);
        let rest = ls.skip(a as int);
        assert forall|j: int| rest.len() - (n - b) <= j < rest.len() implies blank_line()(
            #[trigger] rest[j],
        ) by {
            assert(rest[j] == ls[j + a]);
        }
        if n - b < rest.len() {
            assert(rest[rest.len() - (n - b) - 1] == ls[b - 1]);
        }
        lemma_trailing_at(rest, blank_line(), n - b);
        assert(strip_blank_lines(ls) =~= ls.subrange(a as int, b as int));
    }
    if format_ok_range(&lines, a, b) {
        Ok(())
    } else {
        Err(Error::MalformedMessage)
    }
}

/// The test for lines that are no comments, as a value. A comment is a line
/// that starts with `#`.
pub open spec fn no_comment() -> spec_fn(Seq<char>) -> bool {
    |l: Seq<char>| !(l.len() > 0 && l[0] == '#')
}

/// The given lines without the comments, the lines that start with `#`. An
/// editor shows such lines as hints; they are no part of the message.
pub fn without_comments(lines: &Vec<String>) -> (out: Vec<String>)
    ensures
        views(out@) == views(lines@).filter(no_comment()),
{
    let ghost ls = views(lines@);
    let mut out: Vec<String> = Vec::new();
    let mut i: usize = 0;
    proof {
        reveal(Seq::filter);
        assert(ls.take(0) =~= Seq::<Seq<char>>::empty());
        assert(views(out@) =~= ls.take(0).filter(no_comment()));
    }
    while i < lines.len()
        invariant
            i <= lines.len(),
            ls == views(lines@),
            views(out@) == ls.take(i as int).filter(no_comment()),
        decreases lines.len() - i,
    {
        let v = chars_of(lines[i].as_str());
        proof {
            Seq::lemma_filter_push(ls.take(i as int), ls[i as int], no_comment());
            assert(ls.take(i as int).push(ls[i as int]) =~= ls.take(i + 1));
        }
        if !(v.len() > 0 && v[0] == '#') {
            let l = lines[i].clone();
            proof {
                lemma_views_push(out@, l);
            }
            out.push(l);
        }
        i += 1;
    }
    proof {
        assert(ls.take(lines.len() as int) =~= ls);
    }
    out
}

// ---------------------------------------------------------------------
// Replies

/// Whether a subject is that of a reply: it starts with `Re:`, in capital or
/// small letters.
pub open spec fn is_reply_subject(s: Seq<char>) -> bool {
    s.len() >= 3 && (s[0] == 'R' || s[0] == 'r') && (s[1] == 'E' || s[1] == 'e') && s[2] == ':'
}

/// The subject of a reply to a message with the subject `s`: `s` itself
/// where it is the subject of a reply already, and `s` behind `Re: `
/// otherwise.
pub open spec fn reply_subject_of(s: Seq<char>) -> Seq<char> {
    if is_reply_subject(s) {
        s
    } else {
        seq!['R', 'e', ':', ' '] + s
    }
}

/// The subject of a reply is the subject of a reply already: to make it
/// one a second time changes nothing.
pub proof fn lemma_reply_subject_idempotent(s: Seq<char>)
    ensures
        is_reply_subject(reply_subject_of(s)),
        reply_subject_of(reply_subject_of(s)) == reply_subject_of(s),
{
}

/// The subject of a reply to a message with the given subject.
pub fn reply_subject(subject: &str) -> (r: String)
    ensures
        r@ == reply_subject_of(subject@),
{
    let v = chars_of(subject);
    if v.len() >= 3 && (v[0] == 'R' || v[0] == 'r') && (v[1] == 'E' || v[1] == 'e') && v[2]
        == ':' {
        subject.to_owned()
    } else {
        let mut out: Vec<char> = Vec::new();
        out.push('R');
        out.push('e');
        out.push(':');
        out.push(' ');
        let mut w = v;
        out.append(&mut w);
        proof {
            assert(out@ =~= reply_subject_of(subject@));
        }
        string_of(out.as_slice())
    }
}

/// A line as it is quoted: `>` for the empty line, and the line behind `> `
/// otherwise.
pub open spec fn quoted_line(l: Seq<char>) -> Seq<char> {
    if l.len() == 0 {
        seq!['>']
    } else {
        seq!['>', ' '] + l
    }
}

/// The given lines, each one quoted.
pub open spec fn quoted(lines: Seq<Seq<char>>) -> Seq<Seq<char>> {
    Seq::new(lines.len(), |i: int| quoted_line(lines[i]))
}

/// Quotes the given lines: each becomes one line, `>` for the empty line and
/// the line behind `> ` otherwise.
pub fn quote(lines: &Vec<String>) -> (out: Vec<String>)
    ensures
        views(out@) == quoted(views(lines@)),
{
    let mut out: Vec<String> = Vec::new();
    let mut i: usize = 0;
    while i < lines.len()
        invariant
            i <= lines.len(),
            out.len() == i,
            forall|k: int| 0 <= k < i ==> (#[trigger] out@[k])@ == quoted_line(lines@[k]@),
        decreases lines.len() - i,
    {
        let mut l = chars_of(lines[i].as_str());
        let mut q: Vec<char> = Vec::new();
        q.push('>');
        if l.len() > 0 {
            q.push(' ');
            q.append(&mut l);
        }
        proof {
            assert(q@ =~= quoted_line(lines@[i as int]@));
        }
        out.push(string_of(q.as_slice()));
        i += 1;
    }
    proof {
        assert(views(out@) =~= quoted(views(lines@)));
    }
    out
}

} // verus!
