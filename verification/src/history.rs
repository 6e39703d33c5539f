//! The graph of the commits of a repository: parents, ancestors and the
//! chain of first parents.
//!
//! Commits are named by their place in the repository. A commit stands
//! behind its parents, so every walk towards the ancestors goes to lower
//! places and ends.

use vstd::prelude::*;
use crate::repository::{lemma_position, position, Commit, Repository};

verus! {

/// Whether the commit at `parent` is one of the parents of the commit at
/// `child`.
pub open spec fn is_parent(commits: Seq<Commit>, child: int, parent: int) -> bool {
    &&& 0 <= child < commits.len()
    &&& 0 <= parent < commits.len()
    &&& exists|p: int|
        0 <= p < commits[child].parents@.len() && #[trigger] commits[child].parents@[p]
            == commits[parent].id
}

/// Whether a walk from the commit at `from` towards the ancestors comes to
/// the commit at `to`, where the walk does not go on behind the commit at
/// `stop`. Every commit is reached from itself. A `stop` that is no place
/// of a commit, such as -1, stops nothing.
pub open spec fn reaches(commits: Seq<Commit>, stop: int, from: int, to: int) -> bool
    decreases from,
{
    &&& 0 <= to <= from < commits.len()
    &&& (from == to || (from != stop && exists|j: int|
        to <= j < from && #[trigger] is_parent(commits, from, j) && reaches(
            commits,
            stop,
            j,
            to,
        )))
}

/// Whether a walk from one of the commits at `starts` comes to the commit
/// at `to`.
pub open spec fn reached(commits: Seq<Commit>, stop: int, starts: Seq<usize>, to: int) -> bool {
    exists|k: int|
        0 <= k < starts.len() && #[trigger] reaches(commits, stop, starts[k] as int, to)
}

/// A walk that comes to a commit comes to its parents too, unless it stops
/// there.
pub proof fn lemma_reaches_step(commits: Seq<Commit>, stop: int, from: int, mid: int, to: int)
    requires
        reaches(commits, stop, from, mid),
        mid != stop,
        is_parent(commits, mid, to),
        to < mid,
    ensures
        reaches(commits, stop, from, to),
    decreases from,
{
    if from == mid {
        assert(reaches(commits, stop, to, to));
    } else {
        let j = choose|j: int|
            mid <= j < from && #[trigger] is_parent(commits, from, j) && reaches(
                commits,
                stop,
                j,
                mid,
            );
        lemma_reaches_step(commits, stop, j, mid, to);
    }
}

/// Whether the marked commits are closed under the step to a parent, apart
/// from the parents of the commit at `stop`.
pub open spec fn closed_marks(commits: Seq<Commit>, stop: int, marks: Seq<bool>) -> bool {
    &&& marks.len() == commits.len()
    &&& forall|k: int, j: int|
        0 <= k < marks.len() && marks[k] && k != stop && #[trigger] is_parent(commits, k, j)
            ==> marks[j]
}

/// Marks that are closed hold every commit that a walk from a marked commit
/// comes to.
pub proof fn lemma_closed(commits: Seq<Commit>, stop: int, marks: Seq<bool>, from: int, to: int)
    requires
        closed_marks(commits, stop, marks),
        reaches(commits, stop, from, to),
        marks[from],
    ensures
        marks[to],
    decreases from,
{
    if from != to {
        let j = choose|j: int|
            to <= j < from && #[trigger] is_parent(commits, from, j) && reaches(
                commits,
                stop,
                j,
                to,
            );
        lemma_closed(commits, stop, marks, j, to);
    }
}

/// The place that a `stop` names: its own, or -1 for none.
pub open spec fn stop_place(stop: Option<usize>) -> int {
    match stop {
        Some(s) => s as int,
        None => -1,
    }
}

/// Marks the commits that a walk from the commits at `starts` comes to,
/// where the walk does not go on behind the commit at `stop`.
pub fn reach(repo: &Repository, starts: &Vec<usize>, stop: Option<usize>) -> (marks: Vec<bool>)
    requires
        repo.wf(),
        forall|k: int| 0 <= k < starts.len() ==> starts[k] < repo.commits().len(),
    ensures
        marks.len() == repo.commits().len(),
        forall|j: int|
            0 <= j < marks.len() ==> marks[j] == reached(
                repo.commits(),
                stop_place(stop),
                starts@,
                j,
            ),
{
    let n = repo.len();
    let ghost commits = repo.commits();
    let ghost st = stop_place(stop);
    let mut marks: Vec<bool> = Vec::new();
    let mut a: usize = 0;
    while a < n
        invariant
            a <= n,
            marks.len() == a,
            forall|j: int| 0 <= j < a ==> !marks[j],
        decreases n - a,
    {
        marks.push(false);
        a += 1;
    }
    let mut k: usize = 0;
    while k < starts.len()
        invariant
            k <= starts.len(),
            marks.len() == n,
            n == commits.len(),
            forall|q: int| 0 <= q < starts.len() ==> starts[q] < n,
            forall|q: int| 0 <= q < k ==> marks[starts[q] as int],
            forall|j: int| 0 <= j < n && marks[j] ==> reached(commits, st, starts@, j),
        decreases starts.len() - k,
    {
        let s = starts[k];
        proof {
            assert(reaches(commits, st, starts[k as int] as int, s as int));
        }
        marks.set(s, true);
        k += 1;
    }
    let mut i: usize = n;
    while i > 0
        invariant
            i <= n,
            repo.wf(),
            commits == repo.commits(),
            st == stop_place(stop),
            marks.len() == n,
            n == commits.len(),
            forall|q: int| 0 <= q < starts.len() ==> starts[q] < n,
            forall|q: int| 0 <= q < starts.len() ==> marks[starts[q] as int],
            forall|j: int| 0 <= j < n && marks[j] ==> reached(commits, st, starts@, j),
            forall|c: int, j: int|
                i <= c < n && marks[c] && c != st && #[trigger] is_parent(commits, c, j)
                    ==> marks[j],
        decreases i,
    {
        i -= 1;
        let skip = match stop {
            Some(s) => s == i,
            None => false,
        };
        if marks[i] && !skip {
            let c = repo.commit_at(i);
            let mut p: usize = 0;
            while p < c.parents.len()
                invariant
                    p <= c.parents.len(),
                    i < n,
                    repo.wf(),
                    commits == repo.commits(),
                    *c == commits[i as int],
                    i as int != st,
                    marks.len() == n,
                    n == commits.len(),
                    marks[i as int],
                    forall|q: int| 0 <= q < starts.len() ==> starts[q] < n,
                    forall|q: int| 0 <= q < starts.len() ==> marks[starts[q] as int],
                    forall|j: int| 0 <= j < n && marks[j] ==> reached(commits, st, starts@, j),
                    forall|c: int, j: int|
                        i < c < n && marks[c] && c != st && #[trigger] is_parent(commits, c, j)
                            ==> marks[j],
                    forall|q: int, j: int|
                        0 <= q < p && 0 <= j < n && (#[trigger] commits[j]).id
                            == #[trigger] c.parents@[q] ==> marks[j],
                decreases c.parents.len() - p,
            {
                match repo.index_of(&c.parents[p]) {
                    Some(j) => {
                        proof {
                            assert(commits[j as int].id == commits[i as int].parents@[p as int]);
                            assert(is_parent(commits, i as int, j as int));
                            assert(j < i);
                            let w = choose|w: int|
                                0 <= w < starts.len() && #[trigger] reaches(
                                    commits,
                                    st,
                                    starts[w] as int,
                                    i as int,
                                );
                            lemma_reaches_step(commits, st, starts[w] as int, i as int, j as int);
                            lemma_position(commits, j as int);
                        }
                        marks.set(j, true);
                        proof {
                            assert forall|q: int, x: int|
                                0 <= q < p + 1 && 0 <= x < n && (#[trigger] commits[x]).id
                                    == #[trigger] c.parents@[q] implies marks[x] by {
                                if q == p {
                                    lemma_position(commits, x);
                                }
                            }
                        }
                    },
                    None => {
                        proof {
                            assert forall|x: int|
                                0 <= x < n implies (#[trigger] commits[x]).id != c.parents@[
                                p as int] by {}
                        }
                    },
                }
                p += 1;
            }
            proof {
                assert forall|j: int| #[trigger]
                    is_parent(commits, i as int, j) implies marks[j] by {
                    let q = choose|q: int|
                        0 <= q < commits[i as int].parents@.len()
                            && #[trigger] commits[i as int].parents@[q] == commits[j].id;
                    assert(commits[j].id == c.parents@[q]);
                }
            }
        }
    }
    proof {
        assert(closed_marks(commits, st, marks@));
        assert forall|j: int| 0 <= j < n && reached(commits, st, starts@, j) implies marks[j] by {
            let w = choose|w: int|
                0 <= w < starts.len() && #[trigger] reaches(commits, st, starts[w] as int, j);
            lemma_closed(commits, st, marks@, starts[w] as int, j);
        }
    }
    marks
}

/// The place of the first parent of the commit at `i`, or the number of
/// commits where it has no parent or its first parent is unknown.
pub open spec fn first_parent(commits: Seq<Commit>, i: int) -> int {
    if commits[i].parents@.len() > 0 {
        position(commits, commits[i].parents@[0])
    } else {
        commits.len() as int
    }
}

/// Whether the chain of first parents that starts with the commit at
/// `from` comes to the commit at `root`.
pub open spec fn on_chain(commits: Seq<Commit>, from: int, root: int) -> bool
    decreases from,
{
    &&& 0 <= from < commits.len()
    &&& (from == root || {
        let p = first_parent(commits, from);
        0 <= p < from && on_chain(commits, p, root)
    })
}

/// The chain of first parents that starts with the commit at `from`, up to
/// the commit at `root` where the chain comes to it, and else up to the
/// commit without a known first parent in which it ends.
pub open spec fn chain(commits: Seq<Commit>, from: int, root: int) -> Seq<int>
    decreases from,
{
    let p = first_parent(commits, from);
    if from == root || !(0 <= p < from) {
        seq![from]
    } else {
        seq![from] + chain(commits, p, root)
    }
}

/// A chain holds its start and leads to lower places.
pub proof fn lemma_chain_bounds(commits: Seq<Commit>, from: int, root: int)
    requires
        0 <= from < commits.len(),
    ensures
        chain(commits, from, root).len() >= 1,
        chain(commits, from, root)[0] == from,
        forall|k: int|
            0 <= k < chain(commits, from, root).len() ==> 0 <= #[trigger] chain(
                commits,
                from,
                root,
            )[k] <= from,
    decreases from,
{
    let p = first_parent(commits, from);
    if !(from == root || !(0 <= p < from)) {
        lemma_chain_bounds(commits, p, root);
        let rest = chain(commits, p, root);
        let all = chain(commits, from, root);
        assert(all == seq![from] + rest);
        assert forall|k: int| 0 <= k < all.len() implies 0 <= #[trigger] all[k] <= from by {
            if k > 0 {
                assert(all[k] == rest[k - 1]);
            }
        }
    }
}

/// The place of the first parent of the commit at `i`, if it has a parent
/// and the repository holds the first one.
pub fn first_parent_index(repo: &Repository, i: usize) -> (r: Option<usize>)
    requires
        repo.wf(),
        i < repo.commits().len(),
    ensures
        r is Some <==> first_parent(repo.commits(), i as int) < repo.commits().len(),
        r is Some ==> r.unwrap() == first_parent(repo.commits(), i as int) && r.unwrap() < i,
{
    let c = repo.commit_at(i);
    if c.parents.len() == 0 {
        None
    } else {
        let r = repo.index_of(&c.parents[0]);
        proof {
            if r is Some {
                let j = r.unwrap() as int;
                assert(repo.commits()[j].id == repo.commits()[i as int].parents@[0]);
            }
        }
        r
    }
}

/// The places in a vector, as numbers.
pub open spec fn places(v: Seq<usize>) -> Seq<int> {
    Seq::new(v.len(), |i: int| v[i] as int)
}

/// The chain of first parents that starts with the commit at `from`, up to
/// the commit at `root`.
pub fn chain_from(repo: &Repository, from: usize, root: Option<usize>) -> (out: Vec<usize>)
    requires
        repo.wf(),
        from < repo.commits().len(),
    ensures
        places(out@) == chain(repo.commits(), from as int, stop_place(root)),
        forall|k: int| 0 <= k < out.len() ==> out[k] < repo.commits().len(),
{
    let ghost commits = repo.commits();
    let ghost rt = stop_place(root);
    let mut out: Vec<usize> = Vec::new();
    let mut cur: usize = from;
    loop
        invariant
            repo.wf(),
            commits == repo.commits(),
            rt == stop_place(root),
            cur < commits.len(),
            forall|k: int| 0 <= k < out.len() ==> out[k] < commits.len(),
            places(out@) + chain(commits, cur as int, rt) == chain(commits, from as int, rt),
        decreases cur,
    {
        let ghost before = places(out@);
        out.push(cur);
        proof {
            assert(places(out@) =~= before.push(cur as int));
        }
        let at_root = match root {
            Some(r) => r == cur,
            None => false,
        };
        if at_root {
            proof {
                assert(before.push(cur as int) =~= before + seq![cur as int]);
            }
            return out;
        }
        match first_parent_index(repo, cur) {
            Some(p) => {
                proof {
                    assert(before.push(cur as int) + chain(commits, p as int, rt) =~= before + (
                    seq![cur as int] + chain(commits, p as int, rt)));
                }
                cur = p;
            },
            None => {
                proof {
                    assert(before.push(cur as int) =~= before + seq![cur as int]);
                }
                return out;
            },
        }
    }
}

/// Marks the commits whose chain of first parents comes to the commit at
/// `root`.
pub fn chain_members(repo: &Repository, root: usize) -> (marks: Vec<bool>)
    requires
        repo.wf(),
    ensures
        marks.len() == repo.commits().len(),
        forall|j: int|
            0 <= j < marks.len() ==> marks[j] == on_chain(repo.commits(), j, root as int),
{
    let n = repo.len();
    let ghost commits = repo.commits();
    let mut marks: Vec<bool> = Vec::new();
    let mut i: usize = 0;
    while i < n
        invariant
            i <= n,
            repo.wf(),
            commits == repo.commits(),
            n == commits.len(),
            marks.len() == i,
            forall|j: int| 0 <= j < i ==> marks[j] == on_chain(commits, j, root as int),
        decreases n - i,
    {
        let m = if i == root {
            true
        } else {
            match first_parent_index(repo, i) {
                Some(p) => marks[p],
                None => false,
            }
        };
        marks.push(m);
        i += 1;
    }
    marks
}

} // verus!
