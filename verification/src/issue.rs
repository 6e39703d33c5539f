//! Issues: the messages and references that belong to one issue.
//!
//! An issue is named by the id of its initial message. Its references are
//! those that are named after it. Its messages are the commits that a walk
//! from these references comes to and whose chain of first parents comes to
//! the initial message.

use vstd::prelude::*;
use crate::error::Error;
use crate::history::{
    chain, chain_from, chain_members, lemma_chain_bounds, on_chain, places, reach, reached, reaches,
    stop_place,
};
use crate::message::{check_message, format_ok, strip_blank_lines};
use crate::oid::{lemma_hex_injective, Oid};
use crate::reference::{parse_name, IssueRefName, IssueRefNameView, IssueRefType, Reference};
use crate::repository::{
    edit_views, holds, lemma_position, position, target_of, Commit, RefEdit, RefEditView,
    Repository,
};
use crate::text::split_lines;

verus! {

/// Where the references that are asked for live.
#[derive(Clone, Copy, Debug, PartialEq, Eq, Structural)]
pub enum RefScope {
    /// In this repository.
    Local,
    /// Among those that were fetched from remotes.
    Remote,
    /// In either place.
    All,
}

impl RefScope {
    /// Whether a reference with the given remote, or with none, lives
    /// there.
    pub open spec fn admits(self, remote: Option<Seq<char>>) -> bool {
        match self {
            RefScope::Local => remote is None,
            RefScope::Remote => remote is Some,
            RefScope::All => true,
        }
    }
}

/// Whether the reference `r` is one of the issue `issue`, of a kind that
/// `kind` asks for, and lives where `scope` says. Its name decides.
pub open spec fn selects(issue: Oid, kind: IssueRefType, scope: RefScope, r: Reference) -> bool {
    match parse_name(r.name@) {
        Some(n) => n.issue == issue.hex() && kind.admits(n.kind()) && scope.admits(n.remote),
        None => false,
    }
}

/// The test `selects`, as a value.
pub open spec fn selecting(issue: Oid, kind: IssueRefType, scope: RefScope) -> spec_fn(
    Reference,
) -> bool {
    |r: Reference| selects(issue, kind, scope, r)
}

/// Whether the reference `r` is one of the issue `issue`, of a kind that
/// `kind` asks for, and lives where `scope` says.
pub fn selects_ref(issue: &Oid, kind: IssueRefType, scope: RefScope, r: &Reference) -> (b: bool)
    ensures
        b == selects(*issue, kind, scope, *r),
{
    match IssueRefName::parse(r.name.as_str()) {
        Some(n) => {
            proof {
                if n.issue != *issue && n.issue.hex() == issue.hex() {
                    lemma_hex_injective(n.issue, *issue);
                }
            }
            let in_scope = match scope {
                RefScope::Local => n.remote.is_none(),
                RefScope::Remote => n.remote.is_some(),
                RefScope::All => true,
            };
            n.issue.same(issue) && kind.accepts(n.kind()) && in_scope
        },
        None => false,
    }
}

/// Those of the given references that are references of the issue `issue`,
/// of a kind that `kind` asks for, and live where `scope` says; in their
/// order.
pub fn select_refs(refs: &Vec<Reference>, issue: &Oid, kind: IssueRefType, scope: RefScope) -> (out:
    Vec<Reference>)
    ensures
        out@ == refs@.filter(selecting(*issue, kind, scope)),
{
    let ghost p = selecting(*issue, kind, scope);
    let mut out: Vec<Reference> = Vec::new();
    let mut i: usize = 0;
    proof {
        reveal(Seq::filter);
        assert(refs@.take(0) =~= Seq::<Reference>::empty());
    }
    while i < refs.len()
        invariant
            i <= refs.len(),
            p == selecting(*issue, kind, scope),
            out@ == refs@.take(i as int).filter(p),
        decreases refs.len() - i,
    {
        proof {
            Seq::lemma_filter_push(refs@.take(i as int), refs@[i as int], p);
            assert(refs@.take(i as int).push(refs@[i as int]) =~= refs@.take(i + 1));
        }
        if selects_ref(issue, kind, scope, &refs[i]) {
            out.push(refs[i].copy());
        }
        i += 1;
    }
    proof {
        assert(refs@.take(refs.len() as int) =~= refs@);
    }
    out
}

/// An issue, named by the id of its initial message.
#[derive(Clone, Copy, Debug, PartialEq, Eq)]
pub struct Issue {
    pub id: Oid,
}

/// The name of the local head of the issue `issue`.
pub open spec fn head_name(issue: Oid) -> Seq<char> {
    (IssueRefNameView { issue: issue.hex(), leaf: None, remote: None }).name()
}

/// The name of the local leaf reference of the issue `issue` for the
/// message `leaf`.
pub open spec fn leaf_name(issue: Oid, leaf: Oid) -> Seq<char> {
    (IssueRefNameView { issue: issue.hex(), leaf: Some(leaf.hex()), remote: None }).name()
}

/// The plan to delete each of the given references, which are expected to
/// be as they are given.
pub open spec fn deletions(refs: Seq<Reference>) -> Seq<RefEditView> {
    Seq::new(
        refs.len(),
        |i: int| RefEditView { name: refs[i].name@, expected: Some(refs[i].target), target: None },
    )
}

/// Plans the deletion of each of the given references, which are expected
/// to be as they are given.
pub fn delete_edits(refs: &Vec<Reference>) -> (out: Vec<RefEdit>)
    ensures
        edit_views(out@) == deletions(refs@),
{
    let mut out: Vec<RefEdit> = Vec::new();
    let mut i: usize = 0;
    while i < refs.len()
        invariant
            i <= refs.len(),
            out.len() == i,
            forall|k: int| 0 <= k < i ==> (#[trigger] out@[k])@ == deletions(refs@)[k],
        decreases refs.len() - i,
    {
        out.push(
            RefEdit { name: refs[i].name.clone(), expected: Some(refs[i].target), target: None },
        );
        i += 1;
    }
    proof {
        assert(edit_views(out@) =~= deletions(refs@));
    }
    out
}

/// The test for references that point to one of the given commits, as a
/// value.
pub open spec fn pointing_to(ids: Seq<Oid>) -> spec_fn(Reference) -> bool {
    |r: Reference| ids.contains(r.target)
}

/// Whether `id` is one of `ids`.
pub fn contains_id(ids: &Vec<Oid>, id: &Oid) -> (r: bool)
    ensures
        r == ids@.contains(*id),
{
    let mut i: usize = 0;
    while i < ids.len()
        invariant
            i <= ids.len(),
            forall|j: int| 0 <= j < i ==> ids@[j] != *id,
        decreases ids.len() - i,
    {
        if ids[i].same(id) {
            return true;
        }
        i += 1;
    }
    false
}

impl Issue {
    /// The issue with the initial message `id`.
    pub fn new(id: Oid) -> (r: Issue)
        ensures
            r.id == id,
    {
        Issue { id }
    }

    /// The initial message of the issue: the commit with the id of the
    /// issue. The result is `NotFound` where the repository does not hold
    /// it.
    pub fn initial_message<'a>(&self, repo: &'a Repository) -> (r: Result<&'a Commit, Error>)
        requires
            repo.wf(),
        ensures
            holds(repo.commits(), self.id) ==> r is Ok && *r->Ok_0 == repo.commits()[position(
                repo.commits(),
                self.id,
            )] && r->Ok_0.id == self.id,
            !holds(repo.commits(), self.id) ==> r == Err::<&Commit, Error>(Error::NotFound),
    {
        match repo.find_commit(&self.id) {
            Some(c) => Ok(c),
            None => Err(Error::NotFound),
        }
    }

    /// Checks that this is an issue: the repository holds its initial
    /// message, which has no parents and the format of a message. The result
    /// is `NotFound` where the repository does not hold the initial message,
    /// and `MalformedMessage` where it has a parent or not the format of a
    /// message.
    pub fn validate(&self, repo: &Repository) -> (r: Result<(), Error>)
        requires
            repo.wf(),
        ensures
            !holds(repo.commits(), self.id) ==> r == Err::<(), Error>(Error::NotFound),
            holds(repo.commits(), self.id) ==> ({
                let c = repo.commits()[position(repo.commits(), self.id)];
                if c.parents@.len() == 0 && format_ok(strip_blank_lines(split_lines(c.message@))) {
                    r is Ok
                } else {
                    r == Err::<(), Error>(Error::MalformedMessage)
                }
            }),
    {
        match repo.find_commit(&self.id) {
            None => Err(Error::NotFound),
            Some(c) => {
                if c.parents.len() > 0 {
                    Err(Error::MalformedMessage)
                } else {
                    check_message(c.message.as_str())
                }
            },
        }
    }

    /// The references of this issue of a kind that `kind` asks for that
    /// live where `scope` says, in the order of the repository.
    pub fn refs(&self, repo: &Repository, kind: IssueRefType, scope: RefScope) -> (out: Vec<
        Reference,
    >)
        ensures
            out@ == repo.refs().filter(selecting(self.id, kind, scope)),
    {
        select_refs(repo.references(), &self.id, kind, scope)
    }

    /// The heads of this issue, local and remote.
    pub fn heads(&self, repo: &Repository) -> (out: Vec<Reference>)
        ensures
            out@ == repo.refs().filter(selecting(self.id, IssueRefType::Head, RefScope::All)),
    {
        self.refs(repo, IssueRefType::Head, RefScope::All)
    }

    /// The leaf references of this issue, local and remote.
    pub fn leaves(&self, repo: &Repository) -> (out: Vec<Reference>)
        ensures
            out@ == repo.refs().filter(selecting(self.id, IssueRefType::Leaf, RefScope::All)),
    {
        self.refs(repo, IssueRefType::Leaf, RefScope::All)
    }

    /// The local references of this issue of a kind that `kind` asks for.
    pub fn local_refs(&self, repo: &Repository, kind: IssueRefType) -> (out: Vec<Reference>)
        ensures
            out@ == repo.refs().filter(selecting(self.id, kind, RefScope::Local)),
    {
        self.refs(repo, kind, RefScope::Local)
    }

    /// The remote references of this issue of a kind that `kind` asks for.
    pub fn remote_refs(&self, repo: &Repository, kind: IssueRefType) -> (out: Vec<Reference>)
        ensures
            out@ == repo.refs().filter(selecting(self.id, kind, RefScope::Remote)),
    {
        self.refs(repo, kind, RefScope::Remote)
    }

    /// The name of the local head of this issue.
    pub fn head_ref_name(&self) -> (r: String)
        ensures
            r@ == head_name(self.id),
    {
        let n = IssueRefName { issue: self.id, leaf: None, remote: None };
        n.to_name()
    }

    /// The name of the local leaf reference of this issue for the message
    /// `leaf`.
    pub fn leaf_ref_name(&self, leaf: &Oid) -> (r: String)
        ensures
            r@ == leaf_name(self.id, *leaf),
    {
        let n = IssueRefName { issue: self.id, leaf: Some(*leaf), remote: None };
        n.to_name()
    }

    /// What the local head of this issue points to, if there is one.
    pub fn local_head(&self, repo: &Repository) -> (r: Option<Oid>)
        requires
            repo.wf(),
        ensures
            r == target_of(repo.refs(), head_name(self.id)),
    {
        let name = self.head_ref_name();
        repo.find_reference(name.as_str())
    }

    /// Plans the local leaf reference for the message `leaf`. Where the
    /// reference exists nothing is to be done, so the same call may be made
    /// again; else it is to be created.
    pub fn add_leaf(&self, repo: &Repository, leaf: Oid) -> (r: Option<RefEdit>)
        requires
            repo.wf(),
        ensures
            target_of(repo.refs(), leaf_name(self.id, leaf)) is Some ==> r is None,
            target_of(repo.refs(), leaf_name(self.id, leaf)) is None ==> r is Some
                && r.unwrap().name@ == leaf_name(self.id, leaf) && r.unwrap().expected
                == None::<Oid> && r.unwrap().target == Some(leaf),
    {
        let name = self.leaf_ref_name(&leaf);
        match repo.find_reference(name.as_str()) {
            Some(_) => None,
            None => Some(RefEdit { name, expected: None, target: Some(leaf) }),
        }
    }

    /// Plans the change of the local head to `target`. Where there is no
    /// local head it is to be created; where there is one it is to be
    /// overwritten if `force` is set, and the result is `AlreadyExists`
    /// otherwise.
    pub fn update_head(&self, repo: &Repository, target: Oid, force: bool) -> (r: Result<
        RefEdit,
        Error,
    >)
        requires
            repo.wf(),
        ensures
            target_of(repo.refs(), head_name(self.id)) is Some && !force ==> r == Err::<
                RefEdit,
                Error,
            >(Error::AlreadyExists),
            target_of(repo.refs(), head_name(self.id)) is None || force ==> r is Ok
                && r->Ok_0.name@ == head_name(self.id) && r->Ok_0.expected == target_of(
                repo.refs(),
                head_name(self.id),
            ) && r->Ok_0.target == Some(target),
    {
        let name = self.head_ref_name();
        let current = repo.find_reference(name.as_str());
        if current.is_some() && !force {
            Err(Error::AlreadyExists)
        } else {
            Ok(RefEdit { name, expected: current, target: Some(target) })
        }
    }

    /// Plans the references for a new message of this issue with the id
    /// `message` and the given parents: the leaf reference for the message,
    /// unless it exists, and then the deletion of each local leaf reference
    /// of this issue that points to one of the parents, in the order of the
    /// repository. A message with a reply is no leaf any more.
    pub fn add_message(&self, repo: &Repository, message: Oid, parents: &Vec<Oid>) -> (r: Vec<
        RefEdit,
    >)
        requires
            repo.wf(),
        ensures
            edit_views(r@) == (if target_of(repo.refs(), leaf_name(self.id, message)) is None {
                seq![
                    (RefEditView {
                        name: leaf_name(self.id, message),
                        expected: None,
                        target: Some(message),
                    }),
                ]
            } else {
                Seq::<RefEditView>::empty()
            }) + deletions(
                repo.refs().filter(selecting(self.id, IssueRefType::Leaf, RefScope::Local)).filter(
                    pointing_to(parents@),
                ),
            ),
    {
        let mut out: Vec<RefEdit> = Vec::new();
        match self.add_leaf(repo, message) {
            Some(e) => {
                out.push(e);
            },
            None => {},
        }
        let ghost first = edit_views(out@);
        let leaves = self.local_refs(repo, IssueRefType::Leaf);
        let ghost p = pointing_to(parents@);
        let mut i: usize = 0;
        proof {
            reveal(Seq::filter);
            assert(leaves@.take(0) =~= Seq::<Reference>::empty());
            assert(edit_views(out@) =~= first + deletions(leaves@.take(0).filter(p)));
        }
        while i < leaves.len()
            invariant
                i <= leaves.len(),
                p == pointing_to(parents@),
                edit_views(out@) == first + deletions(leaves@.take(i as int).filter(p)),
            decreases leaves.len() - i,
        {
            proof {
                Seq::lemma_filter_push(leaves@.take(i as int), leaves@[i as int], p);
                assert(leaves@.take(i as int).push(leaves@[i as int]) =~= leaves@.take(i + 1));
            }
            if contains_id(parents, &leaves[i].target) {
                let ghost kept = leaves@.take(i as int).filter(p);
                let ghost before = edit_views(out@);
                let e = RefEdit {
                    name: leaves[i].name.clone(),
                    expected: Some(leaves[i].target),
                    target: None,
                };
                out.push(e);
                proof {
                    assert(edit_views(out@) =~= before.push(e@));
                    assert(deletions(kept.push(leaves@[i as int])) =~= deletions(kept).push(e@));
                    assert(edit_views(out@) =~= first + deletions(kept.push(leaves@[i as int])));
                }
            }
            i += 1;
        }
        proof {
            assert(leaves@.take(leaves.len() as int) =~= leaves@);
        }
        out
    }

    /// Plans the creation of the issue whose initial message has the id
    /// `id`: its local head is to be created and to point to that message.
    /// The result is `AlreadyExists` where the issue has a local head.
    pub fn create(repo: &Repository, id: Oid) -> (r: Result<(Issue, RefEdit), Error>)
        requires
            repo.wf(),
        ensures
            target_of(repo.refs(), head_name(id)) is Some ==> r == Err::<(Issue, RefEdit), Error>(
                Error::AlreadyExists,
            ),
            target_of(repo.refs(), head_name(id)) is None ==> r is Ok && r->Ok_0.0.id == id
                && r->Ok_0.1.name@ == head_name(id) && r->Ok_0.1.expected == None::<Oid>
                && r->Ok_0.1.target == Some(id),
    {
        let issue = Issue { id };
        match issue.update_head(repo, id, false) {
            Ok(e) => Ok((issue, e)),
            Err(e) => Err(Error::AlreadyExists),
        }
    }
}

// ---------------------------------------------------------------------
// Messages

/// What the given references point to.
pub open spec fn targets(refs: Seq<Reference>) -> Seq<Oid> {
    Seq::new(refs.len(), |i: int| refs[i].target)
}

/// The ids of the commits at the given places.
pub open spec fn ids_at(commits: Seq<Commit>, at: Seq<int>) -> Seq<Oid> {
    Seq::new(at.len(), |k: int| commits[at[k]].id)
}

/// Whether a walk from one of the commits `starts` towards the ancestors
/// comes to the commit at `to`, where the walk does not go on behind the
/// commit at `stop`. A start that the repository does not hold starts no
/// walk.
pub open spec fn walked(commits: Seq<Commit>, stop: int, starts: Seq<Oid>, to: int) -> bool {
    exists|k: int|
        0 <= k < starts.len() && holds(commits, #[trigger] starts[k]) && reaches(
            commits,
            stop,
            position(commits, starts[k]),
            to,
        )
}

/// Whether the commit at `i` is a message of the issue `issue`: the
/// repository holds the initial message, the chain of first parents of the
/// commit comes to it, and a walk from a reference of the issue comes to the
/// commit.
pub open spec fn is_message(repo: &Repository, issue: Oid, i: int) -> bool {
    let root = position(repo.commits(), issue);
    &&& holds(repo.commits(), issue)
    &&& on_chain(repo.commits(), i, root)
    &&& walked(
        repo.commits(),
        root,
        targets(repo.refs().filter(selecting(issue, IssueRefType::Any, RefScope::All))),
        i,
    )
}

/// Whether the ids are those of commits of the repository and stand in
/// the opposite of the order of the repository, the newest first. A commit
/// stands behind its ancestors in the repository, so here each commit comes
/// before its ancestors, and none comes twice.
pub open spec fn newest_first(commits: Seq<Commit>, ids: Seq<Oid>) -> bool {
    &&& forall|k: int| 0 <= k < ids.len() ==> holds(commits, #[trigger] ids[k])
    &&& forall|a: int, b: int|
        0 <= a < b < ids.len() ==> position(commits, #[trigger] ids[a]) > position(
            commits,
            #[trigger] ids[b],
        )
}

/// An ancestor of a commit stands before it in the repository.
pub proof fn lemma_ancestors_stand_before(commits: Seq<Commit>, stop: int, from: int, to: int)
    requires
        reaches(commits, stop, from, to),
        from != to,
    ensures
        to < from,
{
}

/// Whether one of the first `n` of the commits `starts` stands at `place`.
pub open spec fn starts_at(commits: Seq<Commit>, starts: Seq<Oid>, n: int, place: int) -> bool {
    exists|k: int|
        0 <= k < n && k < starts.len() && holds(commits, #[trigger] starts[k]) && position(
            commits,
            starts[k],
        ) == place
}

/// Whether `place` is one of the places `at`.
pub open spec fn has_place(at: Seq<usize>, place: int) -> bool {
    exists|x: int| 0 <= x < at.len() && #[trigger] at[x] == place
}

/// Marks the commits that a walk from the commits `starts` comes to, where
/// the walk does not go on behind the commit at `stop`.
pub fn walk(repo: &Repository, starts: &Vec<Oid>, stop: Option<usize>) -> (marks: Vec<bool>)
    requires
        repo.wf(),
    ensures
        marks.len() == repo.commits().len(),
        forall|j: int|
            0 <= j < marks.len() ==> marks[j] == walked(
                repo.commits(),
                stop_place(stop),
                starts@,
                j,
            ),
{
    let ghost commits = repo.commits();
    let ghost st = stop_place(stop);
    let mut at: Vec<usize> = Vec::new();
    let mut i: usize = 0;
    while i < starts.len()
        invariant
            i <= starts.len(),
            repo.wf(),
            commits == repo.commits(),
            forall|x: int| 0 <= x < at.len() ==> at[x] < commits.len(),
            forall|x: int|
                0 <= x < at.len() ==> starts_at(
                    commits,
                    starts@,
                    i as int,
                    #[trigger] at[x] as int,
                ),
            forall|k: int|
                0 <= k < i && holds(commits, #[trigger] starts@[k]) ==> has_place(
                    at@,
                    position(commits, starts@[k]),
                ),
        decreases starts.len() - i,
    {
        match repo.index_of(&starts[i]) {
            Some(j) => {
                let ghost before = at@;
                at.push(j);
                proof {
                    assert forall|k: int|
                        0 <= k < i + 1 && holds(commits, #[trigger] starts@[k]) implies has_place(
                        at@,
                        position(commits, starts@[k]),
                    ) by {
                        if k < i {
                            let x = choose|x: int|
                                0 <= x < before.len() && #[trigger] before[x] == position(
                                    commits,
                                    starts@[k],
                                );
                            assert(at[x] == before[x]);
                        } else {
                            assert(at[at.len() - 1] == j);
                        }
                    }
                    assert forall|x: int| 0 <= x < at.len() implies starts_at(
                        commits,
                        starts@,
                        i + 1,
                        #[trigger] at[x] as int,
                    ) by {
                        if x < before.len() {
                            assert(at[x] == before[x]);
                            assert(starts_at(commits, starts@, i as int, before[x] as int));
                            let k = choose|k: int|
                                0 <= k < i && k < starts.len() && holds(
                                    commits,
                                    #[trigger] starts@[k],
                                ) && position(commits, starts@[k]) == before[x];
                            assert(holds(commits, starts@[k]));
                        } else {
                            assert(holds(commits, starts@[i as int]));
                        }
                    }
                }
            },
            None => {
                proof {
                    assert forall|x: int| 0 <= x < at.len() implies starts_at(
                        commits,
                        starts@,
                        i + 1,
                        #[trigger] at[x] as int,
                    ) by {
                        assert(starts_at(commits, starts@, i as int, at[x] as int));
                        let k = choose|k: int|
                            0 <= k < i && k < starts.len() && holds(
                                commits,
                                #[trigger] starts@[k],
                            ) && position(commits, starts@[k]) == at[x];
                        assert(holds(commits, starts@[k]));
                    }
                }
            },
        }
        i += 1;
    }
    let marks = reach(repo, &at, stop);
    proof {
        assert forall|j: int| 0 <= j < marks.len() implies marks[j] == walked(
            commits,
            st,
            starts@,
            j,
        ) by {
            if reached(commits, st, at@, j) {
                let x = choose|x: int|
                    0 <= x < at.len() && #[trigger] reaches(commits, st, at[x] as int, j);
                assert(starts_at(commits, starts@, i as int, at[x] as int));
                let k = choose|k: int|
                    0 <= k < i && k < starts.len() && holds(commits, #[trigger] starts@[k])
                        && position(commits, starts@[k]) == at[x];
                assert(holds(commits, starts@[k]));
            }
            if walked(commits, st, starts@, j) {
                let k = choose|k: int|
                    0 <= k < starts.len() && holds(commits, #[trigger] starts@[k]) && reaches(
                        commits,
                        st,
                        position(commits, starts@[k]),
                        j,
                    );
                assert(has_place(at@, position(commits, starts@[k])));
                let x = choose|x: int|
                    0 <= x < at.len() && #[trigger] at[x] == position(commits, starts@[k]);
                assert(reaches(commits, st, at[x] as int, j));
            }
        }
    }
    marks
}

/// What the given references point to.
pub fn targets_of(refs: &Vec<Reference>) -> (out: Vec<Oid>)
    ensures
        out@ == targets(refs@),
{
    let mut out: Vec<Oid> = Vec::new();
    let mut k: usize = 0;
    while k < refs.len()
        invariant
            k <= refs.len(),
            out@ == targets(refs@.take(k as int)),
        decreases refs.len() - k,
    {
        out.push(refs[k].target);
        proof {
            assert(out@ =~= targets(refs@.take(k + 1)));
        }
        k += 1;
    }
    proof {
        assert(refs@.take(refs.len() as int) =~= refs@);
    }
    out
}

/// The commits with the given ids, which the repository holds.
pub fn commits_of<'a>(repo: &'a Repository, ids: &Vec<Oid>) -> (out: Vec<&'a Commit>)
    requires
        repo.wf(),
        forall|k: int| 0 <= k < ids.len() ==> holds(repo.commits(), #[trigger] ids[k]),
    ensures
        out.len() == ids.len(),
        forall|k: int|
            0 <= k < out.len() ==> *(#[trigger] out[k]) == repo.commits()[position(
                repo.commits(),
                ids[k],
            )] && out[k].id == ids[k],
{
    let mut out: Vec<&Commit> = Vec::new();
    let mut k: usize = 0;
    while k < ids.len()
        invariant
            k <= ids.len(),
            repo.wf(),
            forall|x: int| 0 <= x < ids.len() ==> holds(repo.commits(), #[trigger] ids[x]),
            out.len() == k,
            forall|x: int|
                0 <= x < k ==> *(#[trigger] out[x]) == repo.commits()[position(
                    repo.commits(),
                    ids[x],
                )] && out[x].id == ids[x],
        decreases ids.len() - k,
    {
        assert(holds(repo.commits(), ids[k as int]));
        match repo.find_commit(&ids[k]) {
            Some(c) => {
                out.push(c);
            },
            None => {},
        }
        k += 1;
    }
    out
}

/// The ids of the marked commits, the newest first.
pub fn marked_ids(repo: &Repository, marks: &Vec<bool>) -> (out: Vec<Oid>)
    requires
        repo.wf(),
        marks.len() == repo.commits().len(),
    ensures
        newest_first(repo.commits(), out@),
        forall|k: int| 0 <= k < out.len() ==> marks[position(repo.commits(), #[trigger] out[k])],
        forall|i: int| 0 <= i < marks.len() && marks[i] ==> out@.contains(repo.commits()[i].id),
{
    let ghost commits = repo.commits();
    let n = repo.len();
    let mut out: Vec<Oid> = Vec::new();
    let mut i: usize = n;
    while i > 0
        invariant
            i <= n,
            repo.wf(),
            commits == repo.commits(),
            n == commits.len(),
            marks.len() == n,
            newest_first(commits, out@),
            forall|k: int|
                0 <= k < out.len() ==> marks[position(commits, #[trigger] out[k])] && position(
                    commits,
                    out[k],
                ) >= i,
            forall|x: int| i <= x < n && marks[x] ==> out@.contains(commits[x].id),
        decreases i,
    {
        i -= 1;
        if marks[i] {
            let id = repo.commit_at(i).id;
            let ghost before = out@;
            proof {
                lemma_position(commits, i as int);
            }
            out.push(id);
            proof {
                assert forall|x: int| i <= x < n && marks[x] implies out@.contains(
                    commits[x].id,
                ) by {
                    if x == i {
                        assert(out@[out.len() - 1] == commits[x].id);
                    } else {
                        let k = choose|k: int| 0 <= k < before.len() && before[k] == commits[x].id;
                        assert(out@[k] == commits[x].id);
                    }
                }
            }
        }
    }
    out
}

impl Issue {
    /// The messages of this issue, the newest first, so that each message
    /// comes before the messages that it replies to. A commit is one of them
    /// if and only if a walk from a reference of the issue comes to it and
    /// its chain of first parents comes to the initial message.
    pub fn messages(&self, repo: &Repository) -> (out: Vec<Oid>)
        requires
            repo.wf(),
        ensures
            newest_first(repo.commits(), out@),
            forall|k: int|
                0 <= k < out.len() ==> is_message(
                    repo,
                    self.id,
                    position(repo.commits(), #[trigger] out[k]),
                ),
            forall|i: int|
                0 <= i < repo.commits().len() && is_message(repo, self.id, i) ==> out@.contains(
                    #[trigger] repo.commits()[i].id,
                ),
    {
        let ghost commits = repo.commits();
        let root = match repo.index_of(&self.id) {
            Some(r) => r,
            None => {
                return Vec::new();
            },
        };
        let refs = self.refs(repo, IssueRefType::Any, RefScope::All);
        let starts = targets_of(&refs);
        let reached = walk(repo, &starts, Some(root));
        let members = chain_members(repo, root);
        let mut marks: Vec<bool> = Vec::new();
        let mut i: usize = 0;
        while i < reached.len()
            invariant
                i <= reached.len(),
                reached.len() == members.len(),
                marks.len() == i,
                forall|j: int| 0 <= j < i ==> marks[j] == (reached[j] && members[j]),
            decreases reached.len() - i,
        {
            marks.push(reached[i] && members[i]);
            i += 1;
        }
        proof {
            assert forall|j: int| 0 <= j < marks.len() implies marks[j] == is_message(
                repo,
                self.id,
                j,
            ) by {}
        }
        let out = marked_ids(repo, &marks);
        proof {
            assert forall|i: int|
                0 <= i < repo.commits().len() && is_message(
                    repo,
                    self.id,
                    i,
                ) implies out@.contains(#[trigger] repo.commits()[i].id) by {
                assert(marks[i]);
            }
        }
        out
    }

    /// The chain of first parents that starts with the commit `from`, up to
    /// the initial message of this issue where the chain comes to it, and
    /// else to its end. The result is empty where the repository does not
    /// hold `from`.
    pub fn messages_from(&self, repo: &Repository, from: &Oid) -> (out: Vec<Oid>)
        requires
            repo.wf(),
        ensures
            forall|k: int| 0 <= k < out.len() ==> holds(repo.commits(), #[trigger] out[k]),
            !holds(repo.commits(), *from) ==> out.len() == 0,
            holds(repo.commits(), *from) ==> out@ == ids_at(
                repo.commits(),
                chain(
                    repo.commits(),
                    position(repo.commits(), *from),
                    if holds(repo.commits(), self.id) {
                        position(repo.commits(), self.id)
                    } else {
                        -1
                    },
                ),
            ),
    {
        let start = match repo.index_of(from) {
            Some(s) => s,
            None => {
                return Vec::new();
            },
        };
        let root = repo.index_of(&self.id);
        let at = chain_from(repo, start, root);
        let ghost commits = repo.commits();
        let mut out: Vec<Oid> = Vec::new();
        let mut k: usize = 0;
        while k < at.len()
            invariant
                k <= at.len(),
                commits == repo.commits(),
                forall|x: int| 0 <= x < at.len() ==> at[x] < commits.len(),
                out@ == ids_at(commits, places(at@).take(k as int)),
            decreases at.len() - k,
        {
            out.push(repo.commit_at(at[k]).id);
            proof {
                assert(out@ =~= ids_at(commits, places(at@).take(k + 1)));
            }
            k += 1;
        }
        proof {
            assert(places(at@).take(at.len() as int) =~= places(at@));
            assert forall|k: int| 0 <= k < out.len() implies holds(commits, #[trigger] out[k]) by {
                assert(out[k] == commits[at[k] as int].id);
            }
        }
        out
    }

    /// The commits that a walk from the commits `starts` comes to, the
    /// newest first, where the walk does not go on behind the initial
    /// message of this issue: the initial message is one of them if the
    /// walk comes to it, and its parents are not, unless the walk comes to
    /// them on another way.
    pub fn terminated_messages(&self, repo: &Repository, starts: &Vec<Oid>) -> (out: Vec<Oid>)
        requires
            repo.wf(),
        ensures
            newest_first(repo.commits(), out@),
            forall|k: int|
                0 <= k < out.len() ==> walked(
                    repo.commits(),
                    if holds(repo.commits(), self.id) {
                        position(repo.commits(), self.id)
                    } else {
                        -1
                    },
                    starts@,
                    position(repo.commits(), #[trigger] out[k]),
                ),
            forall|i: int|
                0 <= i < repo.commits().len() && walked(
                    repo.commits(),
                    if holds(repo.commits(), self.id) {
                        position(repo.commits(), self.id)
                    } else {
                        -1
                    },
                    starts@,
                    i,
                ) ==> out@.contains(#[trigger] repo.commits()[i].id),
    {
        let root = repo.index_of(&self.id);
        let marks = walk(repo, starts, root);
        let out = marked_ids(repo, &marks);
        proof {
            assert forall|i: int|
                0 <= i < repo.commits().len() && walked(
                    repo.commits(),
                    stop_place(root),
                    starts@,
                    i,
                ) implies out@.contains(#[trigger] repo.commits()[i].id) by {
                assert(marks[i]);
            }
        }
        out
    }
}

/// The issue that the message `id` belongs to: the commit in which the
/// chain of first parents of the message ends, if that commit has no parent.
/// There is none where the repository does not hold the message, and where
/// the chain ends in a commit whose first parent is unknown.
pub open spec fn issue_of_message(commits: Seq<Commit>, id: Oid) -> Option<Oid> {
    if holds(commits, id) {
        let last = chain(commits, position(commits, id), -1).last();
        if commits[last].parents@.len() == 0 {
            Some(commits[last].id)
        } else {
            None
        }
    } else {
        None
    }
}

/// The issue that the message `id` belongs to.
pub fn find_issue(repo: &Repository, id: &Oid) -> (r: Option<Oid>)
    requires
        repo.wf(),
    ensures
        r == issue_of_message(repo.commits(), *id),
{
    match repo.index_of(id) {
        Some(start) => {
            let at = chain_from(repo, start, None);
            proof {
                lemma_chain_bounds(repo.commits(), start as int, -1);
                assert(places(at@).last() == at[at.len() - 1] as int);
            }
            let c = repo.commit_at(at[at.len() - 1]);
            if c.parents.len() == 0 {
                Some(c.id)
            } else {
                None
            }
        },
        None => None,
    }
}

/// The tree for a new message with the given parents: that of the first
/// parent, if there is one and the repository holds it. A message without
/// such a parent gets the empty tree.
pub fn tree_of_first(repo: &Repository, parents: &Vec<Oid>) -> (r: Option<Oid>)
    requires
        repo.wf(),
    ensures
        r == if parents.len() > 0 && holds(repo.commits(), parents[0]) {
            Some(repo.commits()[position(repo.commits(), parents[0])].tree)
        } else {
            None::<Oid>
        },
{
    if parents.len() == 0 {
        return None;
    }
    match repo.find_commit(&parents[0]) {
        Some(c) => Some(c.tree),
        None => None,
    }
}

} // verus!
