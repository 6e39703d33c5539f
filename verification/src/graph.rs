//! The tree graph: a drawing of the messages of an issue, one line of
//! cells for each message.
//!
//! The messages come newest first. The drawing keeps tracks, from left to
//! right; each track waits for one commit or is empty. A message stands on
//! the leftmost track that waits for it, and on a new track at the right
//! where none does. The other tracks that wait for it end in its line. The
//! track of the message goes on to its first parent, and each further
//! parent gets a new track at the right.

use vstd::prelude::*;
use crate::oid::Oid;
use crate::repository::Commit;
use crate::seqs::{leading, lemma_leading_at};
use crate::text::{chars_of, string_of, views};

verus! {

/// A cell of a line of the tree graph.
#[derive(Clone, Copy, Debug, PartialEq, Eq, Structural)]
pub enum TreeGraphElem {
    /// No track.
    Empty,
    /// A track that passes by the message of the line.
    Passing,
    /// A track that starts at the message of the line.
    Branch,
    /// A track that ends in the message of the line.
    Merge,
    /// The message of the line.
    Node,
}

impl TreeGraphElem {
    /// The cell for a graph that is read in the other direction: a track
    /// that ends becomes one that starts, and the reverse.
    pub open spec fn reversed(self) -> TreeGraphElem {
        match self {
            TreeGraphElem::Branch => TreeGraphElem::Merge,
            TreeGraphElem::Merge => TreeGraphElem::Branch,
            e => e,
        }
    }

    /// The cell below this one, in the further lines of text of the same
    /// message: a track that goes on is drawn as passing, the others leave
    /// the cell empty.
    pub open spec fn below(self) -> TreeGraphElem {
        match self {
            TreeGraphElem::Empty => TreeGraphElem::Empty,
            TreeGraphElem::Merge => TreeGraphElem::Empty,
            _ => TreeGraphElem::Passing,
        }
    }

    /// The character that draws this cell.
    pub open spec fn glyph(self) -> char {
        match self {
            TreeGraphElem::Empty => ' ',
            TreeGraphElem::Passing => '|',
            TreeGraphElem::Branch => '\\',
            TreeGraphElem::Merge => '/',
            TreeGraphElem::Node => '*',
        }
    }

    /// The cell for a graph that is read in the other direction.
    pub fn reverse(self) -> (r: TreeGraphElem)
        ensures
            r == self.reversed(),
    {
        match self {
            TreeGraphElem::Branch => TreeGraphElem::Merge,
            TreeGraphElem::Merge => TreeGraphElem::Branch,
            e => e,
        }
    }

    /// The cell below this one.
    pub fn following(self) -> (r: TreeGraphElem)
        ensures
            r == self.below(),
    {
        match self {
            TreeGraphElem::Empty => TreeGraphElem::Empty,
            TreeGraphElem::Merge => TreeGraphElem::Empty,
            _ => TreeGraphElem::Passing,
        }
    }

    /// The character that draws this cell.
    pub fn to_char(self) -> (c: char)
        ensures
            c == self.glyph(),
    {
        match self {
            TreeGraphElem::Empty => ' ',
            TreeGraphElem::Passing => '|',
            TreeGraphElem::Branch => '\\',
            TreeGraphElem::Merge => '/',
            TreeGraphElem::Node => '*',
        }
    }
}

/// A line of the tree graph: its cells from left to right.
#[derive(Clone, Debug, PartialEq, Eq)]
pub struct TreeGraphElemLine {
    pub elems: Vec<TreeGraphElem>,
}

/// The cells, each one reversed.
pub open spec fn reversed_cells(cells: Seq<TreeGraphElem>) -> Seq<TreeGraphElem> {
    Seq::new(cells.len(), |i: int| cells[i].reversed())
}

/// The cells below the given ones.
pub open spec fn cells_below(cells: Seq<TreeGraphElem>) -> Seq<TreeGraphElem> {
    Seq::new(cells.len(), |i: int| cells[i].below())
}

/// The characters that draw the cells.
pub open spec fn glyphs(cells: Seq<TreeGraphElem>) -> Seq<char> {
    Seq::new(cells.len(), |i: int| cells[i].glyph())
}

/// To reverse the cells twice gives them back.
pub proof fn lemma_reverse_twice(cells: Seq<TreeGraphElem>)
    ensures
        reversed_cells(reversed_cells(cells)) == cells,
{
    assert(reversed_cells(reversed_cells(cells)) =~= cells);
}

impl View for TreeGraphElemLine {
    type V = Seq<TreeGraphElem>;

    open spec fn view(&self) -> Seq<TreeGraphElem> {
        self.elems@
    }
}

impl TreeGraphElemLine {
    /// The line without cells.
    pub fn empty() -> (r: TreeGraphElemLine)
        ensures
            r@ == Seq::<TreeGraphElem>::empty(),
    {
        TreeGraphElemLine { elems: Vec::new() }
    }

    /// Adds a cell at the right.
    pub fn append(&mut self, elem: TreeGraphElem)
        ensures
            final(self)@ == old(self)@.push(elem),
    {
        self.elems.push(elem);
    }

    /// Turns the line into that of a graph that is read in the other
    /// direction: the tracks that end in the message become tracks that
    /// start at it, and the reverse. The places of the cells stay.
    pub fn reverse_marks(&mut self)
        ensures
            final(self)@ == reversed_cells(old(self)@),
    {
        let n = self.elems.len();
        let mut i: usize = 0;
        while i < n
            invariant
                i <= n,
                self.elems.len() == n,
                n == old(self).elems.len(),
                forall|j: int| 0 <= j < i ==> self.elems[j] == old(self).elems[j].reversed(),
                forall|j: int| i <= j < n ==> self.elems[j] == old(self).elems[j],
            decreases n - i,
        {
            let e = self.elems[i].reverse();
            self.elems.set(i, e);
            i += 1;
        }
        proof {
            assert(self@ =~= reversed_cells(old(self)@));
        }
    }

    /// The line below this one, for the further lines of text of the same
    /// message.
    pub fn following(&self) -> (r: TreeGraphElemLine)
        ensures
            r@ == cells_below(self@),
    {
        let mut elems: Vec<TreeGraphElem> = Vec::new();
        let mut i: usize = 0;
        while i < self.elems.len()
            invariant
                i <= self.elems.len(),
                elems.len() == i,
                forall|j: int| 0 <= j < i ==> elems[j] == self.elems[j].below(),
            decreases self.elems.len() - i,
        {
            elems.push(self.elems[i].following());
            i += 1;
        }
        proof {
            assert(elems@ =~= cells_below(self@));
        }
        TreeGraphElemLine { elems }
    }

    /// The line as text: one character for each cell.
    pub fn to_string(&self) -> (r: String)
        ensures
            r@ == glyphs(self@),
    {
        let mut out: Vec<char> = Vec::new();
        let mut i: usize = 0;
        while i < self.elems.len()
            invariant
                i <= self.elems.len(),
                out.len() == i,
                forall|j: int| 0 <= j < i ==> out[j] == self.elems[j].glyph(),
            decreases self.elems.len() - i,
        {
            out.push(self.elems[i].to_char());
            i += 1;
        }
        proof {
            assert(out@ =~= glyphs(self@));
        }
        string_of(out.as_slice())
    }
}

/// The test for tracks that do not wait for `id`, as a value.
pub open spec fn not_waiting_for(id: Oid) -> spec_fn(Option<Oid>) -> bool {
    |t: Option<Oid>| t != Some(id)
}

/// The place of the leftmost track that waits for `id`, or the number of
/// tracks where none does.
pub open spec fn first_hit(tracks: Seq<Option<Oid>>, id: Oid) -> int {
    leading(tracks, not_waiting_for(id)) as int
}

/// The tracks on which the message `id` is drawn: the given ones, and one
/// more at the right, which waits for `id`, where none of them does.
pub open spec fn tracks_for(tracks: Seq<Option<Oid>>, id: Oid) -> Seq<Option<Oid>> {
    if first_hit(tracks, id) < tracks.len() {
        tracks
    } else {
        tracks.push(Some(id))
    }
}

/// The line of the message `id`: on the leftmost track that waits for it
/// stands the message; the other tracks that wait for it end here; the
/// tracks that wait for another commit pass by; empty tracks stay empty.
pub open spec fn line_of(tracks: Seq<Option<Oid>>, id: Oid) -> Seq<TreeGraphElem> {
    let on = tracks_for(tracks, id);
    Seq::new(
        on.len(),
        |s: int|
            if on[s] == Some(id) {
                if s == first_hit(tracks, id) {
                    TreeGraphElem::Node
                } else {
                    TreeGraphElem::Merge
                }
            } else if on[s] is Some {
                TreeGraphElem::Passing
            } else {
                TreeGraphElem::Empty
            },
    )
}

/// The tracks behind the message `id` with the given parents: the track of
/// the message waits for the first parent, or is empty where there is none;
/// the other tracks that waited for the message are empty; each further
/// parent has a new track at the right, in the order of the parents.
pub open spec fn tracks_after(tracks: Seq<Option<Oid>>, id: Oid, parents: Seq<Oid>) -> Seq<
    Option<Oid>,
> {
    let on = tracks_for(tracks, id);
    Seq::new(
        on.len(),
        |s: int|
            if on[s] == Some(id) {
                if s == first_hit(tracks, id) && parents.len() > 0 {
                    Some(parents[0])
                } else {
                    None
                }
            } else {
                on[s]
            },
    ) + Seq::new(
        if parents.len() > 1 {
            (parents.len() - 1) as nat
        } else {
            0
        },
        |k: int| Some(parents[k + 1]),
    )
}

/// The lines of the given messages, drawn one after the other from the
/// given tracks.
pub open spec fn lines_from(tracks: Seq<Option<Oid>>, messages: Seq<&Commit>) -> Seq<
    Seq<TreeGraphElem>,
>
    decreases messages.len(),
{
    if messages.len() == 0 {
        Seq::empty()
    } else {
        seq![line_of(tracks, messages[0].id)] + lines_from(
            tracks_after(tracks, messages[0].id, messages[0].parents@),
            messages.drop_first(),
        )
    }
}

/// The views of the given lines.
pub open spec fn line_views(lines: Seq<TreeGraphElemLine>) -> Seq<Seq<TreeGraphElem>> {
    Seq::new(lines.len(), |i: int| lines[i]@)
}

/// The state of a drawing: its tracks, from left to right.
pub struct TreeGraph {
    pub tracks: Vec<Option<Oid>>,
}

impl TreeGraph {
    /// A drawing without tracks.
    pub fn new() -> (r: TreeGraph)
        ensures
            r.tracks@ == Seq::<Option<Oid>>::empty(),
    {
        TreeGraph { tracks: Vec::new() }
    }

    /// Draws the message `id` with the given parents: gives its line and
    /// moves the tracks on.
    pub fn step(&mut self, id: &Oid, parents: &Vec<Oid>) -> (line: TreeGraphElemLine)
        ensures
            line@ == line_of(old(self).tracks@, *id),
            final(self).tracks@ == tracks_after(old(self).tracks@, *id, parents@),
    {
        let ghost before = self.tracks@;
        let n = self.tracks.len();
        // The leftmost track that waits for the message.
        let mut first: usize = 0;
        while first < n && !waits_for(&self.tracks[first], id)
            invariant
                first <= n,
                n == self.tracks.len(),
                self.tracks@ == before,
                forall|j: int| 0 <= j < first ==> not_waiting_for(*id)(#[trigger] before[j]),
            decreases n - first,
        {
            first += 1;
        }
        proof {
            if first < n {
                assert(!not_waiting_for(*id)(before[first as int]));
            }
            lemma_leading_at(before, not_waiting_for(*id), first as int);
        }
        if first == n {
            self.tracks.push(Some(*id));
        }
        let ghost on = self.tracks@;
        assert(on == tracks_for(before, *id));
        let m = self.tracks.len();
        let mut elems: Vec<TreeGraphElem> = Vec::new();
        let mut s: usize = 0;
        while s < m
            invariant
                s <= m,
                m == self.tracks.len(),
                m == on.len(),
                first < m,
                elems.len() == s,
                first == first_hit(before, *id),
                on == tracks_for(before, *id),
                forall|j: int| 0 <= j < s ==> elems[j] == line_of(before, *id)[j],
                forall|j: int|
                    0 <= j < s ==> self.tracks[j] == tracks_after(before, *id, parents@)[j],
                forall|j: int| s <= j < m ==> self.tracks[j] == on[j],
            decreases m - s,
        {
            if waits_for(&self.tracks[s], id) {
                if s == first {
                    elems.push(TreeGraphElem::Node);
                    if parents.len() > 0 {
                        self.tracks.set(s, Some(parents[0]));
                    } else {
                        self.tracks.set(s, None);
                    }
                } else {
                    elems.push(TreeGraphElem::Merge);
                    self.tracks.set(s, None);
                }
            } else if self.tracks[s].is_some() {
                elems.push(TreeGraphElem::Passing);
            } else {
                elems.push(TreeGraphElem::Empty);
            }
            s += 1;
        }
        let ghost head = self.tracks@;
        let ghost tail = Seq::new(
            if parents.len() > 1 {
                (parents.len() - 1) as nat
            } else {
                0
            },
            |x: int| Some(parents@[x + 1]),
        );
        proof {
            assert(head.len() == m);
            assert(tracks_after(before, *id, parents@).len() == m + tail.len());
            assert forall|j: int| 0 <= j < m implies head[j] == tracks_after(
                before,
                *id,
                parents@,
            )[j] by {
                assert(self.tracks[j] == tracks_after(before, *id, parents@)[j]);
            }
        }
        let mut k: usize = 1;
        while k < parents.len()
            invariant
                1 <= k,
                parents.len() > 1 ==> k <= parents.len(),
                parents.len() <= 1 ==> k == 1,
                self.tracks@ == head + Seq::new((k - 1) as nat, |x: int| Some(parents@[x + 1])),
            decreases parents.len() - k,
        {
            self.tracks.push(Some(parents[k]));
            proof {
                assert(self.tracks@ =~= head + Seq::new(k as nat, |x: int| Some(parents@[x + 1])));
            }
            k += 1;
        }
        proof {
            assert(elems@ =~= line_of(before, *id));
            assert(self.tracks@ =~= head + tail);
            assert(self.tracks@ =~= tracks_after(before, *id, parents@));
        }
        TreeGraphElemLine { elems }
    }
}

/// Whether the track waits for `id`.
fn waits_for(track: &Option<Oid>, id: &Oid) -> (r: bool)
    ensures
        r == (*track == Some(*id)),
{
    match track {
        Some(t) => t.same(id),
        None => false,
    }
}

/// Draws the tree graph of the given messages, which come newest first: one
/// line for each message, in their order.
pub fn into_tree_graph(messages: &Vec<&Commit>) -> (lines: Vec<TreeGraphElemLine>)
    ensures
        line_views(lines@) == lines_from(Seq::empty(), messages@),
{
    let mut graph = TreeGraph::new();
    let mut lines: Vec<TreeGraphElemLine> = Vec::new();
    let mut i: usize = 0;
    proof {
        assert(messages@.skip(0) =~= messages@);
        assert(line_views(lines@) + lines_from(graph.tracks@, messages@.skip(0)) =~= lines_from(
            Seq::empty(),
            messages@,
        ));
    }
    while i < messages.len()
        invariant
            i <= messages.len(),
            line_views(lines@) + lines_from(graph.tracks@, messages@.skip(i as int)) == lines_from(
                Seq::empty(),
                messages@,
            ),
        decreases messages.len() - i,
    {
        let ghost tracks = graph.tracks@;
        let ghost done = line_views(lines@);
        let c = messages[i];
        let line = graph.step(&c.id, &c.parents);
        proof {
            let rest = messages@.skip(i as int);
            assert(rest[0] == messages@[i as int]);
            assert(rest.drop_first() =~= messages@.skip(i + 1));
            assert(lines_from(tracks, rest) == seq![line@] + lines_from(
                graph.tracks@,
                messages@.skip(i + 1),
            ));
        }
        lines.push(line);
        proof {
            assert(line_views(lines@) =~= done.push(line@));
            assert(done.push(line@) + lines_from(graph.tracks@, messages@.skip(i + 1)) =~= done + (
            seq![line@] + lines_from(graph.tracks@, messages@.skip(i + 1))));
        }
        i += 1;
    }
    proof {
        assert(messages@.skip(messages.len() as int) =~= Seq::<&Commit>::empty());
        assert(line_views(lines@) + Seq::<Seq<TreeGraphElem>>::empty() =~= line_views(lines@));
    }
    lines
}

/// A line of the drawing with its text: the cells, a blank, the text.
pub open spec fn row_text(cells: Seq<TreeGraphElem>, text: Seq<char>) -> Seq<char> {
    glyphs(cells) + seq![' '] + text
}

/// The rows of one message: each line of its text behind the cells of the
/// message, the first behind the line of the message itself and the others
/// behind the line below it.
pub open spec fn rows_of(cells: Seq<TreeGraphElem>, texts: Seq<Seq<char>>) -> Seq<Seq<char>> {
    Seq::new(
        texts.len(),
        |k: int|
            row_text(
                if k == 0 {
                    cells
                } else {
                    cells_below(cells)
                },
                texts[k],
            ),
    )
}

/// The rows of one message: each line of its text behind the cells of the
/// message.
pub fn rows(line: &TreeGraphElemLine, texts: &Vec<String>) -> (out: Vec<String>)
    ensures
        views(out@) == rows_of(line@, views(texts@)),
{
    let first = chars_of(line.to_string().as_str());
    let below = chars_of(line.following().to_string().as_str());
    let mut out: Vec<String> = Vec::new();
    let mut k: usize = 0;
    while k < texts.len()
        invariant
            k <= texts.len(),
            first@ == glyphs(line@),
            below@ == glyphs(cells_below(line@)),
            out.len() == k,
            forall|x: int|
                0 <= x < k ==> (#[trigger] out@[x])@ == rows_of(
                    line@,
                    views(texts@),
                )[x],
        decreases texts.len() - k,
    {
        let cells = if k == 0 {
            &first
        } else {
            &below
        };
        let mut row: Vec<char> = Vec::new();
        let mut j: usize = 0;
        while j < cells.len()
            invariant
                j <= cells.len(),
                row@ == cells@.take(j as int),
            decreases cells.len() - j,
        {
            row.push(cells[j]);
            proof {
                assert(cells@.take(j + 1) =~= cells@.take(j as int).push(cells@[j as int]));
            }
            j += 1;
        }
        row.push(' ');
        let mut t = chars_of(texts[k].as_str());
        row.append(&mut t);
        proof {
            assert(cells@.take(cells.len() as int) =~= cells@);
            assert(row@ =~= cells@ + seq![' '] + texts@[k as int]@);
        }
        out.push(string_of(row.as_slice()));
        k += 1;
    }
    proof {
        assert(views(out@) =~= rows_of(line@, views(texts@)));
    }
    out
}

/// The cells of a line as they are shown: with the marks reversed where the
/// messages are shown in the order of time, and with an empty cell at the
/// right, which sets the text off.
pub open spec fn shown_cells(cells: Seq<TreeGraphElem>, chronological: bool) -> Seq<
    TreeGraphElem,
> {
    (if chronological {
        reversed_cells(cells)
    } else {
        cells
    }).push(TreeGraphElem::Empty)
}

/// The rows of all messages: those of each message as `rows_of` gives them
/// for its line, in the order of the messages, or from the last message to
/// the first where they are shown in the order of time.
pub open spec fn all_rows(
    lines: Seq<Seq<TreeGraphElem>>,
    texts: Seq<Seq<Seq<char>>>,
    chronological: bool,
) -> Seq<Seq<char>>
    decreases lines.len(),
{
    if lines.len() == 0 {
        Seq::empty()
    } else if chronological {
        rows_of(shown_cells(lines.last(), true), texts.last()) + all_rows(
            lines.drop_last(),
            texts.drop_last(),
            true,
        )
    } else {
        all_rows(lines.drop_last(), texts.drop_last(), false) + rows_of(
            shown_cells(lines.last(), false),
            texts.last(),
        )
    }
}

/// The views of the texts of several messages.
pub open spec fn text_views(texts: Seq<Vec<String>>) -> Seq<Seq<Seq<char>>> {
    Seq::new(texts.len(), |k: int| views(texts[k]@))
}

/// The rows of one message for its line, as they are shown.
fn shown_rows(line: &TreeGraphElemLine, text: &Vec<String>, chronological: bool) -> (out: Vec<
    String,
>)
    ensures
        views(out@) == rows_of(shown_cells(line@, chronological), views(text@)),
{
    let mut shown = TreeGraphElemLine { elems: line.elems.clone() };
    assert(shown@ =~= line@);
    if chronological {
        shown.reverse_marks();
    }
    shown.append(TreeGraphElem::Empty);
    rows(&shown, text)
}

/// Appends the strings `more` to `out`.
fn append_lines(out: &mut Vec<String>, more: Vec<String>)
    ensures
        views(final(out)@) == views(old(out)@) + views(more@),
{
    let ghost start = views(out@);
    let ghost ms = views(more@);
    let mut rest = more;
    out.append(&mut rest);
    proof {
        assert(views(out@) =~= start + ms);
    }
}

/// The rows in which the messages of an issue are shown: for each message
/// the lines of its text behind the cells of its line of the tree graph.
/// The messages come newest first, as they were drawn. Where they are to be
/// shown in the order of time, the oldest comes first and the marks of each
/// line are reversed.
pub fn graph_rows(
    lines: &Vec<TreeGraphElemLine>,
    texts: &Vec<Vec<String>>,
    chronological: bool,
) -> (out: Vec<String>)
    requires
        lines.len() == texts.len(),
    ensures
        views(out@) == all_rows(line_views(lines@), text_views(texts@), chronological),
{
    let ghost ls = line_views(lines@);
    let ghost ts = text_views(texts@);
    let n = lines.len();
    let mut out: Vec<String> = Vec::new();
    if chronological {
        let mut i: usize = n;
        proof {
            assert(ls.take(n as int) =~= ls);
            assert(ts.take(n as int) =~= ts);
            assert(views(out@) + all_rows(ls, ts, true) =~= all_rows(ls, ts, true));
        }
        while i > 0
            invariant
                i <= n,
                n == lines.len(),
                n == texts.len(),
                ls == line_views(lines@),
                ts == text_views(texts@),
                views(out@) + all_rows(ls.take(i as int), ts.take(i as int), true) == all_rows(
                    ls,
                    ts,
                    true,
                ),
            decreases i,
        {
            let ghost before = views(out@);
            proof {
                assert(ls.take(i as int).drop_last() =~= ls.take(i - 1));
                assert(ts.take(i as int).drop_last() =~= ts.take(i - 1));
                assert(ls.take(i as int).last() == lines@[i - 1]@);
                assert(ts.take(i as int).last() == views(texts@[i - 1]@));
            }
            i -= 1;
            let more = shown_rows(&lines[i], &texts[i], true);
            let ghost added = views(more@);
            append_lines(&mut out, more);
            proof {
                assert((before + added) + all_rows(ls.take(i as int), ts.take(i as int), true)
                    =~= before + (added + all_rows(ls.take(i as int), ts.take(i as int), true)));
            }
        }
        proof {
            assert(ls.take(0) =~= Seq::<Seq<TreeGraphElem>>::empty());
            assert(views(out@) + Seq::<Seq<char>>::empty() =~= views(out@));
        }
    } else {
        let mut i: usize = 0;
        proof {
            assert(ls.take(0) =~= Seq::<Seq<TreeGraphElem>>::empty());
            assert(views(out@) =~= all_rows(ls.take(0), ts.take(0), false));
        }
        while i < n
            invariant
                i <= n,
                n == lines.len(),
                n == texts.len(),
                ls == line_views(lines@),
                ts == text_views(texts@),
                views(out@) == all_rows(ls.take(i as int), ts.take(i as int), false),
            decreases n - i,
        {
            proof {
                assert(ls.take(i + 1).drop_last() =~= ls.take(i as int));
                assert(ts.take(i + 1).drop_last() =~= ts.take(i as int));
                assert(ls.take(i + 1).last() == lines@[i as int]@);
                assert(ts.take(i + 1).last() == views(texts@[i as int]@));
            }
            let more = shown_rows(&lines[i], &texts[i], false);
            append_lines(&mut out, more);
            i += 1;
        }
        proof {
            assert(ls.take(n as int) =~= ls);
            assert(ts.take(n as int) =~= ts);
        }
    }
    out
}

} // verus!
