//! A repository as the issue tracker sees it: commits, each with its parents,
//! and references.
//!
//! The commits stand in the order in which they entered the repository. The
//! id of a commit is computed from its content, which names its parents, so
//! a commit enters after its parents: a parent that the repository holds
//! stands before its children. A parent that the repository does not hold
//! is unknown, and stays so.

use vstd::prelude::*;
use crate::error::Error;
use crate::oid::Oid;
use crate::reference::Reference;
use crate::text::same_text;
use crate::time::Time;

verus! {

/// A signature: who signed, and when.
#[derive(Clone, Debug, PartialEq, Eq)]
pub struct Signature {
    pub name: String,
    pub email: String,
    pub time: Time,
}

/// A commit: its id, the signatures of its author and of its committer, its
/// message, the ids of its parents in order, and the id of its tree. The
/// first parent is the message that this one replies to; the others are
/// messages that it refers to.
#[derive(Clone, Debug, PartialEq, Eq)]
pub struct Commit {
    pub id: Oid,
    pub author: Signature,
    pub committer: Signature,
    pub message: String,
    pub parents: Vec<Oid>,
    pub tree: Oid,
}

/// Whether one of the commits has the id `id`.
pub open spec fn holds(commits: Seq<Commit>, id: Oid) -> bool {
    exists|i: int| 0 <= i < commits.len() && (#[trigger] commits[i]).id == id
}

/// The place of the commit with the id `id`, or the number of commits where
/// none has it.
pub open spec fn position(commits: Seq<Commit>, id: Oid) -> int {
    if holds(commits, id) {
        choose|i: int| 0 <= i < commits.len() && (#[trigger] commits[i]).id == id
    } else {
        commits.len() as int
    }
}

/// Whether no two of the commits have the same id.
pub open spec fn distinct_ids(commits: Seq<Commit>) -> bool {
    forall|i: int, j: int|
        0 <= i < j < commits.len() ==> (#[trigger] commits[i]).id != (#[trigger] commits[j]).id
}

/// Whether each commit stands behind those of its parents that are among
/// the commits.
pub open spec fn parents_first(commits: Seq<Commit>) -> bool {
    forall|i: int, p: int, j: int|
        0 <= i < commits.len() && 0 <= p < commits[i].parents@.len() && 0 <= j < commits.len()
            && (#[trigger] commits[j]).id == #[trigger] commits[i].parents@[p] ==> j < i
}

/// Whether no two of the references have the same name.
pub open spec fn distinct_names(refs: Seq<Reference>) -> bool {
    forall|i: int, j: int|
        0 <= i < j < refs.len() ==> (#[trigger] refs[i]).name@ != (#[trigger] refs[j]).name@
}

/// Whether one of the references has the name `name`.
pub open spec fn has_ref(refs: Seq<Reference>, name: Seq<char>) -> bool {
    exists|i: int| 0 <= i < refs.len() && (#[trigger] refs[i]).name@ == name
}

/// What the reference with the name `name` points to, if there is one.
pub open spec fn target_of(refs: Seq<Reference>, name: Seq<char>) -> Option<Oid> {
    if has_ref(refs, name) {
        Some(refs[choose|i: int| 0 <= i < refs.len() && (#[trigger] refs[i]).name@ == name].target)
    } else {
        None
    }
}

/// With distinct ids, the commit with a given id stands at one place.
pub proof fn lemma_position(commits: Seq<Commit>, i: int)
    requires
        distinct_ids(commits),
        0 <= i < commits.len(),
    ensures
        holds(commits, commits[i].id),
        position(commits, commits[i].id) == i,
{
    let j = position(commits, commits[i].id);
    assert(0 <= j < commits.len() && commits[j].id == commits[i].id);
    if j < i {
        assert(commits[j].id != commits[i].id);
    } else if i < j {
        assert(commits[i].id != commits[j].id);
    }
}

/// With distinct names, the reference with a given name is one.
pub proof fn lemma_target_of(refs: Seq<Reference>, i: int)
    requires
        distinct_names(refs),
        0 <= i < refs.len(),
    ensures
        has_ref(refs, refs[i].name@),
        ref_place(refs, refs[i].name@) == i,
        target_of(refs, refs[i].name@) == Some(refs[i].target),
{
    let name = refs[i].name@;
    let j = choose|j: int| 0 <= j < refs.len() && (#[trigger] refs[j]).name@ == name;
    if j < i {
        assert(refs[j].name@ != refs[i].name@);
    } else if i < j {
        assert(refs[i].name@ != refs[j].name@);
    }
}

/// A selection from references with distinct names has distinct names.
pub proof fn lemma_filter_distinct(refs: Seq<Reference>, p: spec_fn(Reference) -> bool)
    requires
        distinct_names(refs),
    ensures
        distinct_names(refs.filter(p)),
    decreases refs.len(),
{
    reveal(Seq::filter);
    if refs.len() > 0 {
        let init = refs.drop_last();
        let last = refs.last();
        assert forall|i: int, j: int| 0 <= i < j < init.len() implies (#[trigger] init[i]).name@
            != (#[trigger] init[j]).name@ by {
            assert(refs[i].name@ != refs[j].name@);
        }
        lemma_filter_distinct(init, p);
        let kept = init.filter(p);
        if p(last) {
            let out = kept.push(last);
            assert forall|i: int, j: int|
                0 <= i < j < out.len() implies (#[trigger] out[i]).name@ != (
            #[trigger] out[j]).name@ by {
                if j == kept.len() {
                    assert(kept.contains(kept[i]));
                    init.lemma_filter_contains_rev(p, kept[i]);
                    let k = choose|k: int| 0 <= k < init.len() && init[k] == kept[i];
                    assert(refs[k].name@ != refs[refs.len() - 1].name@);
                } else {
                    assert(kept[i].name@ != kept[j].name@);
                }
            }
        }
    }
}

/// A planned change of one reference. It names the value that the
/// reference is expected to have when the change is made, `None` for a
/// reference that is not to exist yet, and the value that it is to get,
/// `None` for a reference that is to be deleted.
#[derive(Clone, Debug, PartialEq, Eq)]
pub struct RefEdit {
    pub name: String,
    pub expected: Option<Oid>,
    pub target: Option<Oid>,
}

/// What a `RefEdit` stands for.
pub struct RefEditView {
    pub name: Seq<char>,
    pub expected: Option<Oid>,
    pub target: Option<Oid>,
}

impl View for RefEdit {
    type V = RefEditView;

    open spec fn view(&self) -> RefEditView {
        RefEditView { name: self.name@, expected: self.expected, target: self.target }
    }
}

/// The views of a sequence of planned changes.
pub open spec fn edit_views(edits: Seq<RefEdit>) -> Seq<RefEditView> {
    Seq::new(edits.len(), |i: int| edits[i]@)
}

/// The place of the reference with the name `name`, where there is one.
pub open spec fn ref_place(refs: Seq<Reference>, name: Seq<char>) -> int {
    choose|i: int| 0 <= i < refs.len() && (#[trigger] refs[i]).name@ == name
}

/// The references after the planned change was made: a reference that
/// exists gets its new value at its place, or leaves; a new reference
/// stands at the end.
pub open spec fn refs_applied(refs: Seq<Reference>, edit: RefEdit) -> Seq<Reference> {
    if has_ref(refs, edit.name@) {
        let i = ref_place(refs, edit.name@);
        match edit.target {
            Some(t) => refs.update(i, Reference { name: refs[i].name, target: t }),
            None => refs.remove(i),
        }
    } else {
        match edit.target {
            Some(t) => refs.push(Reference { name: edit.name, target: t }),
            None => refs,
        }
    }
}

/// Whether `after` is what the references `refs` are after the reference
/// `name` was set to `target`, or deleted where `target` is `None`: that
/// reference is as asked for, and the others are as before.
pub open spec fn refs_after(
    refs: Seq<Reference>,
    after: Seq<Reference>,
    name: Seq<char>,
    target: Option<Oid>,
) -> bool {
    &&& distinct_names(after)
    &&& target_of(after, name) == target
    &&& forall|other: Seq<char>| other != name ==> target_of(after, other) == target_of(refs, other)
}

/// A repository: commits and references.
pub struct Repository {
    commits: Vec<Commit>,
    refs: Vec<Reference>,
}

impl Repository {
    /// The commits, in the order in which they entered.
    pub closed spec fn commits(&self) -> Seq<Commit> {
        self.commits@
    }

    /// The references.
    pub closed spec fn refs(&self) -> Seq<Reference> {
        self.refs@
    }

    /// What holds of every repository: no two commits have the same id,
    /// each commit stands behind its parents, and no two references have
    /// the same name.
    pub open spec fn wf(&self) -> bool {
        &&& distinct_ids(self.commits())
        &&& parents_first(self.commits())
        &&& distinct_names(self.refs())
    }

    /// A repository without commits and references.
    pub fn new() -> (r: Repository)
        ensures
            r.wf(),
            r.commits().len() == 0,
            r.refs().len() == 0,
    {
        Repository { commits: Vec::new(), refs: Vec::new() }
    }

    /// The number of commits.
    pub fn len(&self) -> (n: usize)
        ensures
            n == self.commits().len(),
    {
        self.commits.len()
    }

    /// The commit at the place `i`.
    pub fn commit_at(&self, i: usize) -> (c: &Commit)
        requires
            i < self.commits().len(),
        ensures
            *c == self.commits()[i as int],
    {
        &self.commits[i]
    }

    /// The references.
    pub fn references(&self) -> (r: &Vec<Reference>)
        ensures
            r@ == self.refs(),
    {
        &self.refs
    }

    /// The place of the commit with the id `id`, if the repository holds
    /// it.
    pub fn index_of(&self, id: &Oid) -> (r: Option<usize>)
        requires
            self.wf(),
        ensures
            r is Some <==> holds(self.commits(), *id),
            r is Some ==> r.unwrap() == position(self.commits(), *id) && r.unwrap()
                < self.commits().len() && self.commits()[r.unwrap() as int].id == *id,
    {
        let mut i: usize = 0;
        while i < self.commits.len()
            invariant
                self.wf(),
                i <= self.commits.len(),
                forall|j: int| 0 <= j < i ==> (#[trigger] self.commits@[j]).id != *id,
            decreases self.commits.len() - i,
        {
            if self.commits[i].id.same(id) {
                proof {
                    lemma_position(self.commits(), i as int);
                }
                return Some(i);
            }
            i += 1;
        }
        None
    }

    /// The commit with the id `id`, if the repository holds it.
    pub fn find_commit(&self, id: &Oid) -> (r: Option<&Commit>)
        requires
            self.wf(),
        ensures
            r is Some <==> holds(self.commits(), *id),
            r is Some ==> *r.unwrap() == self.commits()[position(self.commits(), *id)]
                && r.unwrap().id == *id,
    {
        match self.index_of(id) {
            Some(i) => Some(&self.commits[i]),
            None => None,
        }
    }

    /// Whether one of the commits names `id` as a parent.
    fn is_named_parent(&self, id: &Oid) -> (r: bool)
        ensures
            r == exists|i: int, p: int|
                0 <= i < self.commits().len() && 0 <= p < self.commits()[i].parents@.len()
                    && #[trigger] self.commits()[i].parents@[p] == *id,
    {
        let mut i: usize = 0;
        while i < self.commits.len()
            invariant
                i <= self.commits.len(),
                forall|k: int, p: int|
                    0 <= k < i && 0 <= p < self.commits@[k].parents@.len()
                        ==> #[trigger] self.commits@[k].parents@[p] != *id,
            decreases self.commits.len() - i,
        {
            let c = &self.commits[i];
            let mut p: usize = 0;
            while p < c.parents.len()
                invariant
                    p <= c.parents.len(),
                    i < self.commits.len(),
                    *c == self.commits@[i as int],
                    forall|q: int| 0 <= q < p ==> #[trigger] c.parents@[q] != *id,
                decreases c.parents.len() - p,
            {
                if c.parents[p].same(id) {
                    proof {
                        assert(self.commits()[i as int].parents@[p as int] == *id);
                    }
                    return true;
                }
                p += 1;
            }
            i += 1;
        }
        false
    }

    /// Adds a commit. A commit enters once, and after its parents: it is
    /// refused with `AlreadyExists` where the repository holds a commit with
    /// its id, and with `OutOfOrder` where it names itself as a parent or a
    /// commit of the repository names it as one.
    pub fn add_commit(&mut self, commit: Commit) -> (r: Result<(), Error>)
        requires
            old(self).wf(),
        ensures
            final(self).wf(),
            final(self).refs() == old(self).refs(),
            match r {
                Ok(_) => final(self).commits() == old(self).commits().push(commit) && holds(
                    final(self).commits(),
                    commit.id,
                ) && position(final(self).commits(), commit.id) == old(self).commits().len(),
                Err(e) => final(self).commits() == old(self).commits(),
            },
            holds(old(self).commits(), commit.id) ==> r == Err::<(), Error>(Error::AlreadyExists),
            !holds(old(self).commits(), commit.id) ==> (r is Ok <==> !names_as_parent(
                old(self).commits().push(commit),
                commit.id,
            )),
            r is Err && !holds(old(self).commits(), commit.id) ==> r == Err::<(), Error>(
                Error::OutOfOrder,
            ),
    {
        if self.index_of(&commit.id).is_some() {
            return Err(Error::AlreadyExists);
        }
        let mut p: usize = 0;
        while p < commit.parents.len()
            invariant
                self.wf(),
                *self == *old(self),
                !holds(self.commits(), commit.id),
                p <= commit.parents.len(),
                forall|q: int| 0 <= q < p ==> #[trigger] commit.parents@[q] != commit.id,
            decreases commit.parents.len() - p,
        {
            if commit.parents[p].same(&commit.id) {
                proof {
                    let all = self.commits().push(commit);
                    assert(all[all.len() - 1].parents@[p as int] == commit.id);
                }
                return Err(Error::OutOfOrder);
            }
            p += 1;
        }
        if self.is_named_parent(&commit.id) {
            proof {
                let all = self.commits().push(commit);
                let (i, q) = choose|i: int, q: int|
                    0 <= i < self.commits().len() && 0 <= q < self.commits()[i].parents@.len()
                        && #[trigger] self.commits()[i].parents@[q] == commit.id;
                assert(all[i].parents@[q] == commit.id);
            }
            return Err(Error::OutOfOrder);
        }
        let ghost before = self.commits();
        self.commits.push(commit);
        proof {
            let all = self.commits();
            assert(all == before.push(commit));
            assert forall|i: int, j: int| 0 <= i < j < all.len() implies (#[trigger] all[i]).id != (
            #[trigger] all[j]).id by {
                if j == all.len() - 1 {
                    assert(before[i].id != commit.id);
                }
            }
            assert forall|i: int, p: int, j: int|
                0 <= i < all.len() && 0 <= p < all[i].parents@.len() && 0 <= j < all.len() && (
                #[trigger] all[j]).id == #[trigger] all[i].parents@[p] implies j < i by {
                if i < before.len() {
                    if j == before.len() {
                        assert(before[i].parents@[p] == commit.id);
                    } else {
                        assert(before[j].id == before[i].parents@[p]);
                    }
                } else {
                    if j == before.len() {
                        assert(commit.parents@[p] == commit.id);
                    }
                }
            }
            assert forall|i: int, q: int|
                0 <= i < all.len() && 0 <= q < all[i].parents@.len() implies
                #[trigger] all[i].parents@[q] != commit.id by {
                if i < before.len() {
                    assert(before[i].parents@[q] != commit.id);
                }
            }
            lemma_position(all, all.len() - 1);
        }
        Ok(())
    }

    /// The place of the reference with the name `name`, if there is one.
    fn ref_index(&self, name: &str) -> (r: Option<usize>)
        requires
            self.wf(),
        ensures
            r is Some <==> has_ref(self.refs(), name@),
            r is Some ==> r.unwrap() < self.refs().len() && self.refs()[r.unwrap() as int].name@
                == name@ && r.unwrap() == ref_place(self.refs(), name@) && target_of(
                self.refs(),
                name@,
            ) == Some(self.refs()[r.unwrap() as int].target),
    {
        let mut i: usize = 0;
        while i < self.refs.len()
            invariant
                self.wf(),
                i <= self.refs.len(),
                forall|j: int| 0 <= j < i ==> (#[trigger] self.refs@[j]).name@ != name@,
            decreases self.refs.len() - i,
        {
            if same_text(self.refs[i].name.as_str(), name) {
                proof {
                    lemma_target_of(self.refs(), i as int);
                }
                return Some(i);
            }
            i += 1;
        }
        None
    }

    /// What the reference with the name `name` points to, if there is one.
    pub fn find_reference(&self, name: &str) -> (r: Option<Oid>)
        requires
            self.wf(),
        ensures
            r == target_of(self.refs(), name@),
    {
        match self.ref_index(name) {
            Some(i) => Some(self.refs[i].target),
            None => None,
        }
    }

    /// Makes the planned change of a reference, if the reference has the
    /// value that the plan expects; else nothing changes and the result is
    /// `WriteConflict`.
    pub fn apply(&mut self, edit: &RefEdit) -> (r: Result<(), Error>)
        requires
            old(self).wf(),
        ensures
            final(self).wf(),
            final(self).commits() == old(self).commits(),
            target_of(old(self).refs(), edit.name@) == edit.expected ==> r is Ok
                && final(self).refs() == refs_applied(old(self).refs(), *edit) && refs_after(
                old(self).refs(),
                final(self).refs(),
                edit.name@,
                edit.target,
            ),
            target_of(old(self).refs(), edit.name@) != edit.expected ==> r == Err::<(), Error>(
                Error::WriteConflict,
            ) && final(self).refs() == old(self).refs(),
    {
        let found = self.ref_index(edit.name.as_str());
        let ghost before = self.refs();
        let ghost name = edit.name@;
        match found {
            Some(i) => {
                let current = self.refs[i].target;
                match edit.expected {
                    Some(e) => {
                        if !current.same(&e) {
                            return Err(Error::WriteConflict);
                        }
                    },
                    None => {
                        return Err(Error::WriteConflict);
                    },
                }
                match edit.target {
                    Some(t) => {
                        let old_ref = self.refs.remove(i);
                        self.refs.insert(i, Reference { name: old_ref.name, target: t });
                        proof {
                            let after = self.refs();
                            assert(after =~= before.update(
                                i as int,
                                Reference { name: before[i as int].name, target: t },
                            ));
                            assert forall|a: int, b: int| 0 <= a < b < after.len() implies (
                            #[trigger] after[a]).name@ != (#[trigger] after[b]).name@ by {
                                assert(before[a].name@ != before[b].name@);
                            }
                            lemma_target_of(after, i as int);
                            assert forall|other: Seq<char>| other != name implies target_of(
                                after,
                                other,
                            ) == target_of(before, other) by {
                                lemma_same_targets(before, after, other, i as int);
                            }
                        }
                    },
                    None => {
                        self.refs.remove(i);
                        proof {
                            let after = self.refs();
                            assert(after =~= before.remove(i as int));
                            assert forall|a: int, b: int| 0 <= a < b < after.len() implies (
                            #[trigger] after[a]).name@ != (#[trigger] after[b]).name@ by {
                                let a0 = if a < i { a } else { a + 1 };
                                let b0 = if b < i { b } else { b + 1 };
                                assert(before[a0].name@ != before[b0].name@);
                            }
                            assert(!has_ref(after, name)) by {
                                if has_ref(after, name) {
                                    let a = choose|a: int|
                                        0 <= a < after.len() && (#[trigger] after[a]).name@ == name;
                                    let a0 = if a < i { a } else { a + 1 };
                                    assert(after[a] == before[a0]);
                                    if a0 < i {
                                        assert(before[a0].name@ != before[i as int].name@);
                                    } else {
                                        assert(before[i as int].name@ != before[a0].name@);
                                    }
                                }
                            }
                            assert forall|other: Seq<char>| other != name implies target_of(
                                after,
                                other,
                            ) == target_of(before, other) by {
                                lemma_removed_targets(before, after, other, i as int);
                            }
                        }
                    },
                }
                Ok(())
            },
            None => {
                if edit.expected.is_some() {
                    return Err(Error::WriteConflict);
                }
                match edit.target {
                    Some(t) => {
                        self.refs.push(Reference { name: edit.name.clone(), target: t });
                        proof {
                            let after = self.refs();
                            assert forall|a: int, b: int| 0 <= a < b < after.len() implies (
                            #[trigger] after[a]).name@ != (#[trigger] after[b]).name@ by {
                                if b == before.len() {
                                    assert(before[a].name@ != name);
                                } else {
                                    assert(before[a].name@ != before[b].name@);
                                }
                            }
                            lemma_target_of(after, before.len() as int);
                            assert forall|other: Seq<char>| other != name implies target_of(
                                after,
                                other,
                            ) == target_of(before, other) by {
                                lemma_pushed_targets(before, after, other);
                            }
                        }
                    },
                    None => {
                        proof {
                            assert(refs_after(before, before, name, None));
                        }
                    },
                }
                Ok(())
            },
        }
    }
}

/// Whether one of the commits names `id` as a parent.
pub open spec fn names_as_parent(commits: Seq<Commit>, id: Oid) -> bool {
    exists|i: int, p: int|
        0 <= i < commits.len() && 0 <= p < commits[i].parents@.len()
            && #[trigger] commits[i].parents@[p] == id
}

/// A change of the target of one reference leaves the others as they
/// were.
proof fn lemma_same_targets(before: Seq<Reference>, after: Seq<Reference>, other: Seq<char>, i: int)
    requires
        distinct_names(before),
        distinct_names(after),
        0 <= i < before.len(),
        after.len() == before.len(),
        forall|k: int| 0 <= k < before.len() ==> (#[trigger] after[k]).name@ == before[k].name@,
        forall|k: int| 0 <= k < before.len() && k != i ==> (#[trigger] after[k]) == before[k],
        other != before[i].name@,
    ensures
        target_of(after, other) == target_of(before, other),
{
    if has_ref(before, other) {
        let k = choose|k: int| 0 <= k < before.len() && (#[trigger] before[k]).name@ == other;
        assert(after[k].name@ == other);
        lemma_target_of(before, k);
        lemma_target_of(after, k);
    } else if has_ref(after, other) {
        let k = choose|k: int| 0 <= k < after.len() && (#[trigger] after[k]).name@ == other;
        assert(before[k].name@ == other);
    }
}

/// The removal of one reference leaves the others as they were.
proof fn lemma_removed_targets(
    before: Seq<Reference>,
    after: Seq<Reference>,
    other: Seq<char>,
    i: int,
)
    requires
        distinct_names(before),
        distinct_names(after),
        0 <= i < before.len(),
        after == before.remove(i),
        other != before[i].name@,
    ensures
        target_of(after, other) == target_of(before, other),
{
    if has_ref(before, other) {
        let k = choose|k: int| 0 <= k < before.len() && (#[trigger] before[k]).name@ == other;
        let k1 = if k < i { k } else { k - 1 };
        assert(after[k1] == before[k]);
        lemma_target_of(before, k);
        lemma_target_of(after, k1);
    } else if has_ref(after, other) {
        let k = choose|k: int| 0 <= k < after.len() && (#[trigger] after[k]).name@ == other;
        let k0 = if k < i { k } else { k + 1 };
        assert(before[k0] == after[k]);
    }
}

/// A new reference leaves the others as they were.
proof fn lemma_pushed_targets(before: Seq<Reference>, after: Seq<Reference>, other: Seq<char>)
    requires
        distinct_names(before),
        distinct_names(after),
        after.len() == before.len() + 1,
        forall|k: int| 0 <= k < before.len() ==> (#[trigger] after[k]) == before[k],
        other != after[before.len() as int].name@,
    ensures
        target_of(after, other) == target_of(before, other),
{
    if has_ref(before, other) {
        let k = choose|k: int| 0 <= k < before.len() && (#[trigger] before[k]).name@ == other;
        assert(after[k].name@ == other);
        lemma_target_of(before, k);
        lemma_target_of(after, k);
    } else if has_ref(after, other) {
        let k = choose|k: int| 0 <= k < after.len() && (#[trigger] after[k]).name@ == other;
        assert(before[k].name@ == other);
    }
}

} // verus!
