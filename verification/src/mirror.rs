//! Mirroring: the local references that are to be made after a fetch.
//!
//! After the references of an issue were fetched from a remote, the local
//! head can be set to the preferred remote head, and local leaf references
//! can be made for the remote leaves. A remote leaf needs no local reference
//! where a walk from the local references of the issue, or from the parents
//! of another remote leaf, comes to it: then it is known already, or it is
//! no leaf.

use vstd::prelude::*;
use crate::error::Error;
use crate::history::stop_place;
use crate::issue::{
    contains_id, head_name, leaf_name, selecting, targets, targets_of, walk, walked, Issue,
    RefScope,
};
use crate::oid::Oid;
use crate::priorization::{is_selected, names_of, RemotePriorization};
use crate::reference::{remote_name, remote_of, IssueRefType, Reference};
use crate::repository::{
    edit_views, holds, position, target_of, Commit, RefEdit, RefEditView, Repository,
};
use crate::seqs::unique;
use crate::text::{chars_of, same_chars};

verus! {

/// What is to be mirrored.
#[derive(Clone, Copy, Debug, PartialEq, Eq, Structural)]
pub struct MirrorOptions {
    /// Create the local head where there is none.
    pub clone_head: bool,
    /// Set the local head, also where there is one.
    pub update_head: bool,
    /// Create local leaf references for the remote leaves.
    pub create_leaves: bool,
}

/// The test for references that were fetched from the remote `remote`, as a
/// value; with `None` every reference passes.
pub open spec fn from_remote(remote: Option<Seq<char>>) -> spec_fn(Reference) -> bool {
    |r: Reference|
        match remote {
            None => true,
            Some(x) => remote_of(r.name@) == Some(x),
        }
}

/// The parents of those of the commits `ids` that the repository holds, in
/// order.
pub open spec fn parent_ids(commits: Seq<Commit>, ids: Seq<Oid>) -> Seq<Oid>
    decreases ids.len(),
{
    if ids.len() == 0 {
        Seq::empty()
    } else {
        parent_ids(commits, ids.drop_last()) + (if holds(commits, ids.last()) {
            commits[position(commits, ids.last())].parents@
        } else {
            Seq::empty()
        })
    }
}

/// The commits that the remote leaf references of the issue point to,
/// those of the remote `remote` only where one is given; each once, in the
/// order of the repository.
pub open spec fn remote_leaves(repo: &Repository, issue: Oid, remote: Option<Seq<char>>) -> Seq<
    Oid,
> {
    unique(
        targets(
            repo.refs().filter(selecting(issue, IssueRefType::Leaf, RefScope::Remote)).filter(
                from_remote(remote),
            ),
        ),
    )
}

/// The commits from which the known messages are walked: what the local
/// references of the issue point to, and the parents of the remote leaves.
pub open spec fn known_starts(repo: &Repository, issue: Oid, remote: Option<Seq<char>>) -> Seq<
    Oid,
> {
    targets(repo.refs().filter(selecting(issue, IssueRefType::Any, RefScope::Local)))
        + parent_ids(repo.commits(), remote_leaves(repo, issue, remote))
}

/// The place at which a walk of the messages of an issue stops: that of the
/// initial message, or -1 where the repository does not hold it.
pub open spec fn root_place(repo: &Repository, issue: Oid) -> int {
    if holds(repo.commits(), issue) {
        position(repo.commits(), issue)
    } else {
        -1
    }
}

/// Whether a remote leaf needs a local reference: the repository holds
/// the commit, and no walk from the known starts comes to it.
pub open spec fn is_missing(
    repo: &Repository,
    issue: Oid,
    remote: Option<Seq<char>>,
    id: Oid,
) -> bool {
    holds(repo.commits(), id) && !walked(
        repo.commits(),
        root_place(repo, issue),
        known_starts(repo, issue, remote),
        position(repo.commits(), id),
    )
}

/// The test `is_missing`, as a value.
pub open spec fn missing(repo: &Repository, issue: Oid, remote: Option<Seq<char>>) -> spec_fn(
    Oid,
) -> bool {
    |id: Oid| is_missing(repo, issue, remote, id)
}

/// The plan to create the local leaf references of the issue for those of
/// the commits `ids` that have none yet.
pub open spec fn leaf_creations(repo: &Repository, issue: Oid, ids: Seq<Oid>) -> Seq<RefEditView>
    decreases ids.len(),
{
    if ids.len() == 0 {
        Seq::empty()
    } else {
        leaf_creations(repo, issue, ids.drop_last()) + (if target_of(
            repo.refs(),
            leaf_name(issue, ids.last()),
        ) is None {
            seq![
                RefEditView {
                    name: leaf_name(issue, ids.last()),
                    expected: None,
                    target: Some(ids.last()),
                },
            ]
        } else {
            Seq::empty()
        })
    }
}

/// The view of an optional text.
pub open spec fn text_of(s: Option<&str>) -> Option<Seq<char>> {
    match s {
        Some(x) => Some(x@),
        None => None,
    }
}

/// Whether the reference was fetched from the remote `remote`; with `None`
/// every reference passes.
fn is_from_remote(r: &Reference, remote: Option<&str>) -> (b: bool)
    ensures
        b == from_remote(text_of(remote))(*r),
{
    match remote {
        None => true,
        Some(x) => {
            match remote_name(r.name.as_str()) {
                Some(name) => {
                    let want = chars_of(x);
                    same_chars(name.as_slice(), want.as_slice())
                },
                None => false,
            }
        },
    }
}

/// The ids without repetitions.
fn unique_ids(ids: &Vec<Oid>) -> (out: Vec<Oid>)
    ensures
        out@ == unique(ids@),
{
    let mut out: Vec<Oid> = Vec::new();
    let mut i: usize = 0;
    proof {
        assert(ids@.take(0) =~= Seq::<Oid>::empty());
    }
    while i < ids.len()
        invariant
            i <= ids.len(),
            out@ == unique(ids@.take(i as int)),
        decreases ids.len() - i,
    {
        proof {
            assert(ids@.take(i + 1).drop_last() =~= ids@.take(i as int));
            assert(ids@.take(i + 1).last() == ids@[i as int]);
        }
        if !contains_id(&out, &ids[i]) {
            out.push(ids[i]);
        }
        i += 1;
    }
    proof {
        assert(ids@.take(ids.len() as int) =~= ids@);
    }
    out
}

/// The parents of those of the commits `ids` that the repository holds.
fn parents_of_all(repo: &Repository, ids: &Vec<Oid>) -> (out: Vec<Oid>)
    requires
        repo.wf(),
    ensures
        out@ == parent_ids(repo.commits(), ids@),
{
    let mut out: Vec<Oid> = Vec::new();
    let mut i: usize = 0;
    proof {
        assert(ids@.take(0) =~= Seq::<Oid>::empty());
    }
    while i < ids.len()
        invariant
            i <= ids.len(),
            repo.wf(),
            out@ == parent_ids(repo.commits(), ids@.take(i as int)),
        decreases ids.len() - i,
    {
        proof {
            assert(ids@.take(i + 1).drop_last() =~= ids@.take(i as int));
            assert(ids@.take(i + 1).last() == ids@[i as int]);
        }
        match repo.find_commit(&ids[i]) {
            Some(c) => {
                let ghost before = out@;
                let mut p: usize = 0;
                while p < c.parents.len()
                    invariant
                        p <= c.parents.len(),
                        out@ == before + c.parents@.take(p as int),
                    decreases c.parents.len() - p,
                {
                    out.push(c.parents[p]);
                    proof {
                        assert(c.parents@.take(p + 1) =~= c.parents@.take(p as int).push(
                            c.parents@[p as int],
                        ));
                    }
                    p += 1;
                }
                proof {
                    assert(c.parents@.take(c.parents.len() as int) =~= c.parents@);
                }
            },
            None => {
                proof {
                    assert(out@ + Seq::<Oid>::empty() =~= out@);
                }
            },
        }
        i += 1;
    }
    proof {
        assert(ids@.take(ids.len() as int) =~= ids@);
    }
    out
}

/// The remote leaves of the issue that need a local leaf reference: the
/// commits that the remote leaf references point to, those of the remote
/// `remote` only where one is given, apart from those that the repository
/// does not hold and from those that a walk from the local references of the
/// issue, or from the parents of the remote leaves, comes to. Each comes
/// once, in the order of the repository.
pub fn mirror_leaves(repo: &Repository, issue: &Issue, remote: Option<&str>) -> (out: Vec<Oid>)
    requires
        repo.wf(),
    ensures
        out@ == remote_leaves(repo, issue.id, text_of(remote)).filter(
            missing(repo, issue.id, text_of(remote)),
        ),
{
    let ghost rm = text_of(remote);
    let ghost fr = from_remote(rm);
    let all = issue.remote_refs(repo, IssueRefType::Leaf);
    let mut chosen: Vec<Reference> = Vec::new();
    let mut i: usize = 0;
    proof {
        reveal(Seq::filter);
        assert(all@.take(0) =~= Seq::<Reference>::empty());
    }
    while i < all.len()
        invariant
            i <= all.len(),
            rm == text_of(remote),
            fr == from_remote(rm),
            chosen@ == all@.take(i as int).filter(fr),
        decreases all.len() - i,
    {
        proof {
            Seq::lemma_filter_push(all@.take(i as int), all@[i as int], fr);
            assert(all@.take(i as int).push(all@[i as int]) =~= all@.take(i + 1));
        }
        if is_from_remote(&all[i], remote) {
            chosen.push(all[i].copy());
        }
        i += 1;
    }
    proof {
        assert(all@.take(all.len() as int) =~= all@);
    }
    let candidates = unique_ids(&targets_of(&chosen));
    assert(candidates@ == remote_leaves(repo, issue.id, rm));
    let locals = issue.local_refs(repo, IssueRefType::Any);
    let mut starts = targets_of(&locals);
    let mut more = parents_of_all(repo, &candidates);
    starts.append(&mut more);
    assert(starts@ == known_starts(repo, issue.id, rm));
    let root = repo.index_of(&issue.id);
    let marks = walk(repo, &starts, root);
    let ghost ms = missing(repo, issue.id, rm);
    let mut out: Vec<Oid> = Vec::new();
    let mut k: usize = 0;
    proof {
        assert(candidates@.take(0) =~= Seq::<Oid>::empty());
    }
    while k < candidates.len()
        invariant
            k <= candidates.len(),
            repo.wf(),
            ms == missing(repo, issue.id, rm),
            starts@ == known_starts(repo, issue.id, rm),
            stop_place(root) == root_place(repo, issue.id),
            marks.len() == repo.commits().len(),
            forall|j: int|
                0 <= j < marks.len() ==> marks[j] == walked(
                    repo.commits(),
                    root_place(repo, issue.id),
                    starts@,
                    j,
                ),
            out@ == candidates@.take(k as int).filter(ms),
        decreases candidates.len() - k,
    {
        proof {
            Seq::lemma_filter_push(candidates@.take(k as int), candidates@[k as int], ms);
            assert(candidates@.take(k as int).push(candidates@[k as int]) =~= candidates@.take(
                k + 1,
            ));
        }
        let keep = match repo.index_of(&candidates[k]) {
            Some(j) => !marks[j],
            None => false,
        };
        if keep {
            out.push(candidates[k]);
        }
        k += 1;
    }
    proof {
        assert(candidates@.take(candidates.len() as int) =~= candidates@);
    }
    out
}

/// Plans the local head of the issue after a fetch. Nothing is planned
/// where neither `clone_head` nor `update_head` is set, and where the issue
/// has no remote head. Else the local head is to point where the preferred
/// remote head points: it is created where there is none, and overwritten
/// where there is one and `update_head` is set; where there is one and
/// `update_head` is not set, the result is `AlreadyExists`.
pub fn mirror_head(
    repo: &Repository,
    issue: &Issue,
    prios: &RemotePriorization,
    clone_head: bool,
    update_head: bool,
) -> (r: Result<Option<RefEdit>, Error>)
    requires
        repo.wf(),
    ensures
        ({
            let heads = repo.refs().filter(
                selecting(issue.id, IssueRefType::Head, RefScope::Remote),
            );
            let current = target_of(repo.refs(), head_name(issue.id));
            if !(clone_head || update_head) || heads.len() == 0 {
                r is Ok && r->Ok_0 is None
            } else if current is Some && !update_head {
                r == Err::<Option<RefEdit>, Error>(Error::AlreadyExists)
            } else {
                r is Ok && r->Ok_0 is Some && exists|i: int|
                    is_selected(prios.list(), names_of(heads), i) && r->Ok_0.unwrap()@ == (
                    RefEditView {
                        name: head_name(issue.id),
                        expected: current,
                        target: Some(#[trigger] heads[i].target),
                    })
            }
        }),
{
    if !(clone_head || update_head) {
        return Ok(None);
    }
    let heads = issue.remote_refs(repo, IssueRefType::Head);
    match prios.select_index(&heads) {
        None => Ok(None),
        Some(i) => {
            match issue.update_head(repo, heads[i].target, update_head) {
                Ok(e) => Ok(Some(e)),
                Err(_) => Err(Error::AlreadyExists),
            }
        },
    }
}

/// Plans the local leaf references of the issue for those of the commits
/// `ids` that have none yet.
pub fn create_leaves(repo: &Repository, issue: &Issue, ids: &Vec<Oid>) -> (out: Vec<RefEdit>)
    requires
        repo.wf(),
    ensures
        edit_views(out@) == leaf_creations(repo, issue.id, ids@),
{
    let mut out: Vec<RefEdit> = Vec::new();
    let mut i: usize = 0;
    proof {
        assert(ids@.take(0) =~= Seq::<Oid>::empty());
        assert(edit_views(out@) =~= leaf_creations(repo, issue.id, ids@.take(0)));
    }
    while i < ids.len()
        invariant
            i <= ids.len(),
            repo.wf(),
            edit_views(out@) == leaf_creations(repo, issue.id, ids@.take(i as int)),
        decreases ids.len() - i,
    {
        proof {
            assert(ids@.take(i + 1).drop_last() =~= ids@.take(i as int));
            assert(ids@.take(i + 1).last() == ids@[i as int]);
        }
        let ghost before = edit_views(out@);
        match issue.add_leaf(repo, ids[i]) {
            Some(e) => {
                out.push(e);
                proof {
                    assert(edit_views(out@) =~= before + seq![e@]);
                }
            },
            None => {
                proof {
                    assert(before + Seq::<RefEditView>::empty() =~= before);
                }
            },
        }
        i += 1;
    }
    proof {
        assert(ids@.take(ids.len() as int) =~= ids@);
    }
    out
}

/// Plans the mirroring of an issue: first the local head, as `mirror_head`
/// plans it, and then, if `create_leaves` is set, the local leaf references
/// for the remote leaves that `mirror_leaves` finds. The result is
/// `AlreadyExists` where `mirror_head` gives that.
pub fn mirror(
    repo: &Repository,
    issue: &Issue,
    prios: &RemotePriorization,
    remote: Option<&str>,
    options: MirrorOptions,
) -> (r: Result<Vec<RefEdit>, Error>)
    requires
        repo.wf(),
    ensures
        ({
            let heads = repo.refs().filter(
                selecting(issue.id, IssueRefType::Head, RefScope::Remote),
            );
            let current = target_of(repo.refs(), head_name(issue.id));
            let leaves = if options.create_leaves {
                leaf_creations(
                    repo,
                    issue.id,
                    remote_leaves(repo, issue.id, text_of(remote)).filter(
                        missing(repo, issue.id, text_of(remote)),
                    ),
                )
            } else {
                Seq::<RefEditView>::empty()
            };
            if !(options.clone_head || options.update_head) || heads.len() == 0 {
                r is Ok && edit_views(r->Ok_0@) == leaves
            } else if current is Some && !options.update_head {
                r == Err::<Vec<RefEdit>, Error>(Error::AlreadyExists)
            } else {
                r is Ok && exists|i: int|
                    is_selected(prios.list(), names_of(heads), i) && edit_views(r->Ok_0@) == seq![
                        RefEditView {
                            name: head_name(issue.id),
                            expected: current,
                            target: Some(#[trigger] heads[i].target),
                        },
                    ] + leaves
            }
        }),
{
    let mut out: Vec<RefEdit> = Vec::new();
    match mirror_head(repo, issue, prios, options.clone_head, options.update_head) {
        Ok(Some(e)) => {
            out.push(e);
        },
        Ok(None) => {},
        Err(_) => {
            return Err(Error::AlreadyExists);
        },
    }
    let ghost head_part = edit_views(out@);
    if options.create_leaves {
        let ids = mirror_leaves(repo, issue, remote);
        let mut more = create_leaves(repo, issue, &ids);
        let ghost tail = edit_views(more@);
        out.append(&mut more);
        proof {
            assert(edit_views(out@) =~= head_part + tail);
        }
    } else {
        proof {
            assert(edit_views(out@) =~= head_part + Seq::<RefEditView>::empty());
        }
    }
    proof {
        let heads = repo.refs().filter(selecting(issue.id, IssueRefType::Head, RefScope::Remote));
        if !(options.clone_head || options.update_head) || heads.len() == 0 {
            assert(head_part =~= Seq::<RefEditView>::empty());
            assert(edit_views(out@) =~= Seq::<RefEditView>::empty() + (edit_views(out@)));
        }
    }
    Ok(out)
}

} // verus!
