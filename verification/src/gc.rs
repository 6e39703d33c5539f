//! Collection of references that are no longer needed.
//!
//! A leaf reference marks a message without a reply. Once a head of the
//! issue stands at the message or at one of its descendants, the message is
//! no leaf any more and the reference can go. A local head can go where a
//! remote head stands at the same commit, if the policy allows it.

use vstd::prelude::*;
use crate::issue::{
    contains_id, selecting, selects, selects_ref, targets, targets_of, walk, walked, Issue,
    RefScope,
};
use crate::oid::Oid;
use crate::reference::{IssueRefType, Reference};
use crate::repository::{distinct_names, holds, lemma_filter_distinct, position, Repository};

verus! {

/// When a local head may be collected.
#[derive(Clone, Copy, Debug, PartialEq, Eq, Structural)]
pub enum ReferenceCollectionSpec {
    /// Never.
    Never,
    /// Where a remote head of the issue points to the same commit.
    BackedByRemoteHead,
}

/// The policy of a collection.
#[derive(Clone, Copy, Debug, PartialEq, Eq, Structural)]
pub struct CollectableRefs {
    /// Whether remote leaf references are candidates, as the local ones
    /// are.
    pub consider_remote_refs: bool,
    /// When a local head may be collected.
    pub collect_heads: ReferenceCollectionSpec,
}

/// Whether the commit `id` stands at or below a head of the issue: the
/// repository holds it, and a walk from a head of the issue, local or
/// remote, towards the ancestors comes to it.
pub open spec fn below_head(repo: &Repository, issue: Oid, id: Oid) -> bool {
    holds(repo.commits(), id) && walked(
        repo.commits(),
        -1,
        targets(repo.refs().filter(selecting(issue, IssueRefType::Head, RefScope::All))),
        position(repo.commits(), id),
    )
}

/// Whether a remote head of the issue points to the commit `id`.
pub open spec fn backed(repo: &Repository, issue: Oid, id: Oid) -> bool {
    targets(repo.refs().filter(selecting(issue, IssueRefType::Head, RefScope::Remote))).contains(id)
}

/// Whether the reference `r` can be collected: it is a leaf reference of
/// the issue, a local one or, if the policy considers them, a remote one,
/// and points to a commit at or below a head; or the policy allows the
/// collection of backed heads and it is the local head of the issue, backed
/// by a remote head.
pub open spec fn collectable(
    repo: &Repository,
    issue: Oid,
    policy: CollectableRefs,
    r: Reference,
) -> bool {
    ||| (selects(
        issue,
        IssueRefType::Leaf,
        if policy.consider_remote_refs {
            RefScope::All
        } else {
            RefScope::Local
        },
        r,
    ) && below_head(repo, issue, r.target))
    ||| (policy.collect_heads == ReferenceCollectionSpec::BackedByRemoteHead && selects(
        issue,
        IssueRefType::Head,
        RefScope::Local,
        r,
    ) && backed(repo, issue, r.target))
}

/// The test `collectable`, as a value.
pub open spec fn collecting(repo: &Repository, issue: Oid, policy: CollectableRefs) -> spec_fn(
    Reference,
) -> bool {
    |r: Reference| collectable(repo, issue, policy, r)
}

/// What is collected is in the repository, and it is never a leaf
/// reference to a true leaf, a message that no head stands at or above.
pub proof fn lemma_collected(repo: &Repository, issue: Oid, policy: CollectableRefs, k: int)
    requires
        0 <= k < repo.refs().filter(collecting(repo, issue, policy)).len(),
    ensures
        repo.refs().contains(repo.refs().filter(collecting(repo, issue, policy))[k]),
        collectable(repo, issue, policy, repo.refs().filter(collecting(repo, issue, policy))[k]),
        selects(
            issue,
            IssueRefType::Leaf,
            RefScope::All,
            repo.refs().filter(collecting(repo, issue, policy))[k],
        ) ==> below_head(
            repo,
            issue,
            repo.refs().filter(collecting(repo, issue, policy))[k].target,
        ),
{
    let p = collecting(repo, issue, policy);
    let out = repo.refs().filter(p);
    repo.refs().lemma_filter_pred(p, k);
    assert(out.contains(out[k]));
    repo.refs().lemma_filter_contains_rev(p, out[k]);
}

impl CollectableRefs {
    /// The policy that considers local leaf references only and collects
    /// no head.
    pub fn new() -> (r: CollectableRefs)
        ensures
            r == (CollectableRefs {
                consider_remote_refs: false,
                collect_heads: ReferenceCollectionSpec::Never,
            }),
    {
        CollectableRefs {
            consider_remote_refs: false,
            collect_heads: ReferenceCollectionSpec::Never,
        }
    }

    /// This policy, with remote leaf references considered or not.
    pub fn consider_remote_refs(self, option: bool) -> (r: CollectableRefs)
        ensures
            r == (CollectableRefs { consider_remote_refs: option, ..self }),
    {
        CollectableRefs { consider_remote_refs: option, collect_heads: self.collect_heads }
    }

    /// This policy, with the given rule for heads.
    pub fn collect_heads(self, rule: ReferenceCollectionSpec) -> (r: CollectableRefs)
        ensures
            r == (CollectableRefs { collect_heads: rule, ..self }),
    {
        CollectableRefs { consider_remote_refs: self.consider_remote_refs, collect_heads: rule }
    }

    /// The references of the issue that can be collected, in the order of
    /// the repository; none comes twice.
    pub fn for_issue(&self, repo: &Repository, issue: &Issue) -> (out: Vec<Reference>)
        requires
            repo.wf(),
        ensures
            out@ == repo.refs().filter(collecting(repo, issue.id, *self)),
            distinct_names(out@),
    {
        proof {
            lemma_filter_distinct(repo.refs(), collecting(repo, issue.id, *self));
        }
        let ghost p = collecting(repo, issue.id, *self);
        let heads = issue.heads(repo);
        let starts = targets_of(&heads);
        let marks = walk(repo, &starts, None);
        let remote_heads = issue.remote_refs(repo, IssueRefType::Head);
        let backing = targets_of(&remote_heads);
        let scope = if self.consider_remote_refs {
            RefScope::All
        } else {
            RefScope::Local
        };
        let with_heads = match self.collect_heads {
            ReferenceCollectionSpec::BackedByRemoteHead => true,
            ReferenceCollectionSpec::Never => false,
        };
        let refs = repo.references();
        let mut out: Vec<Reference> = Vec::new();
        let mut i: usize = 0;
        proof {
            reveal(Seq::filter);
            assert(refs@.take(0) =~= Seq::<Reference>::empty());
        }
        while i < refs.len()
            invariant
                i <= refs.len(),
                repo.wf(),
                refs@ == repo.refs(),
                p == collecting(repo, issue.id, *self),
                starts@ == targets(
                    repo.refs().filter(selecting(issue.id, IssueRefType::Head, RefScope::All)),
                ),
                backing@ == targets(
                    repo.refs().filter(selecting(issue.id, IssueRefType::Head, RefScope::Remote)),
                ),
                marks.len() == repo.commits().len(),
                forall|j: int|
                    0 <= j < marks.len() ==> marks[j] == walked(repo.commits(), -1, starts@, j),
                scope == (if self.consider_remote_refs {
                    RefScope::All
                } else {
                    RefScope::Local
                }),
                with_heads == (self.collect_heads == ReferenceCollectionSpec::BackedByRemoteHead),
                out@ == refs@.take(i as int).filter(p),
            decreases refs.len() - i,
        {
            let r = &refs[i];
            proof {
                Seq::lemma_filter_push(refs@.take(i as int), refs@[i as int], p);
                assert(refs@.take(i as int).push(refs@[i as int]) =~= refs@.take(i + 1));
            }
            let reached = match repo.index_of(&r.target) {
                Some(j) => marks[j],
                None => false,
            };
            let as_leaf = selects_ref(&issue.id, IssueRefType::Leaf, scope, r) && reached;
            let as_head = with_heads && selects_ref(
                &issue.id,
                IssueRefType::Head,
                RefScope::Local,
                r,
            ) && contains_id(&backing, &r.target);
            if as_leaf || as_head {
                out.push(r.copy());
            }
            i += 1;
        }
        proof {
            assert(refs@.take(refs.len() as int) =~= refs@);
        }
        out
    }
}

} // verus!
