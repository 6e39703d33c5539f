//! The list of the issues of a repository, the newest first.

use vstd::prelude::*;
use crate::error::Error;
use crate::filters::{filter_views, issue_metadata, keys_of, passes_all, MetadataFilter};
use crate::issue::{contains_id, Issue};
use crate::oid::{lemma_hex_injective, Oid};
use crate::reference::{parse_name, IssueRefName, Reference};
use crate::repository::{holds, position, Commit, Repository};
use crate::seqs::{leading, lemma_leading_at, lemma_leading_run, unique};
use crate::time::{not_before, Time};

verus! {

/// An issue and the time at which its initial message was committed.
#[derive(Clone, Copy, Debug, PartialEq, Eq)]
pub struct Entry {
    pub time: Time,
    pub issue: Oid,
}

/// The test for entries that are not older than the time `t`, as a value.
pub open spec fn not_older(t: Time) -> spec_fn(Entry) -> bool {
    |e: Entry| not_before(e.time, t)
}

/// The entries sorted by time, the newest first; entries of the same time
/// keep their order.
pub open spec fn sort_newest(s: Seq<Entry>) -> Seq<Entry>
    decreases s.len(),
{
    if s.len() == 0 {
        Seq::empty()
    } else {
        let rest = sort_newest(s.drop_last());
        rest.insert(leading(rest, not_older(s.last().time)) as int, s.last())
    }
}

/// Whether no entry stands before a newer one.
pub open spec fn is_newest_first(s: Seq<Entry>) -> bool {
    forall|a: int, b: int| 0 <= a < b < s.len() ==> not_before(s[a].time, s[b].time)
}

/// The sorted entries are the given entries, each as often as it was given,
/// and none of them stands before a newer one.
pub proof fn lemma_sort_newest(s: Seq<Entry>)
    ensures
        sort_newest(s).len() == s.len(),
        sort_newest(s).to_multiset() == s.to_multiset(),
        is_newest_first(sort_newest(s)),
    decreases s.len(),
{
    broadcast use vstd::seq_lib::to_multiset_insert, vstd::seq_lib::to_multiset_build;

    if s.len() == 0 {
        assert(sort_newest(s) =~= s);
    } else {
        let init = s.drop_last();
        let x = s.last();
        lemma_sort_newest(init);
        let rest = sort_newest(init);
        lemma_insert_sorted(rest, x);
        let p = leading(rest, not_older(x.time)) as int;
        assert(s =~= init.push(x));
        assert(rest.insert(p, x).to_multiset() == rest.to_multiset().insert(x));
        assert(init.push(x).to_multiset() == init.to_multiset().insert(x));
    }
}

/// To put an entry behind those that are not older keeps the order.
pub proof fn lemma_insert_sorted(rest: Seq<Entry>, x: Entry)
    requires
        is_newest_first(rest),
    ensures
        0 <= leading(rest, not_older(x.time)) <= rest.len(),
        rest.insert(leading(rest, not_older(x.time)) as int, x).len() == rest.len() + 1,
        is_newest_first(rest.insert(leading(rest, not_older(x.time)) as int, x)),
{
    let p = leading(rest, not_older(x.time)) as int;
    lemma_leading_run(rest, not_older(x.time));
    let out = rest.insert(p, x);
    assert forall|a: int, b: int| 0 <= a < b < out.len() implies not_before(
        out[a].time,
        out[b].time,
    ) by {
        if b < p {
            assert(out[a] == rest[a] && out[b] == rest[b]);
        } else if b == p {
            assert(out[a] == rest[a]);
            assert(not_older(x.time)(rest[a]));
        } else {
            assert(out[b] == rest[b - 1]);
            assert(!not_older(x.time)(rest[p]));
            if p < b - 1 {
                assert(not_before(rest[p].time, rest[b - 1].time));
            }
            if a < p {
                assert(out[a] == rest[a]);
                assert(not_before(rest[a].time, rest[b - 1].time));
            } else if a > p {
                assert(out[a] == rest[a - 1]);
            }
        }
    }
}

/// Sorts the entries by time, the newest first; entries of the same time
/// keep their order.
pub fn sort_entries(entries: &Vec<Entry>) -> (out: Vec<Entry>)
    ensures
        out@ == sort_newest(entries@),
{
    let mut out: Vec<Entry> = Vec::new();
    let mut i: usize = 0;
    proof {
        assert(entries@.take(0) =~= Seq::<Entry>::empty());
    }
    while i < entries.len()
        invariant
            i <= entries.len(),
            out@ == sort_newest(entries@.take(i as int)),
        decreases entries.len() - i,
    {
        let x = entries[i];
        proof {
            assert(entries@.take(i + 1).drop_last() =~= entries@.take(i as int));
            assert(entries@.take(i + 1).last() == x);
            lemma_sort_newest(entries@.take(i as int));
        }
        let mut p: usize = 0;
        while p < out.len() && out[p].time.is_not_before(x.time)
            invariant
                p <= out.len(),
                forall|j: int| 0 <= j < p ==> not_older(x.time)(#[trigger] out@[j]),
            decreases out.len() - p,
        {
            p += 1;
        }
        proof {
            if p < out.len() {
                assert(!not_older(x.time)(out@[p as int]));
            }
            lemma_leading_at(out@, not_older(x.time), p as int);
        }
        out.insert(p, x);
        i += 1;
    }
    proof {
        assert(entries@.take(entries.len() as int) =~= entries@);
    }
    out
}

/// The texts of the ids of the issues that the given references are named
/// after, in order; a reference that is not one of an issue gives none.
pub open spec fn issue_texts(refs: Seq<Reference>) -> Seq<Seq<char>>
    decreases refs.len(),
{
    if refs.len() == 0 {
        Seq::empty()
    } else {
        let rest = issue_texts(refs.drop_last());
        match parse_name(refs.last().name@) {
            Some(n) => rest.push(n.issue),
            None => rest,
        }
    }
}

/// The texts of the given ids.
pub open spec fn hexes(ids: Seq<Oid>) -> Seq<Seq<char>> {
    Seq::new(ids.len(), |i: int| ids[i].hex())
}

/// The issues of the repository: those that a reference is named after,
/// local or remote; each once, in the order of the references.
pub fn all_issues(repo: &Repository) -> (out: Vec<Oid>)
    ensures
        hexes(out@) == unique(issue_texts(repo.refs())),
{
    let refs = repo.references();
    let mut out: Vec<Oid> = Vec::new();
    let mut i: usize = 0;
    proof {
        assert(refs@.take(0) =~= Seq::<Reference>::empty());
        assert(hexes(out@) =~= unique(issue_texts(refs@.take(0))));
    }
    while i < refs.len()
        invariant
            i <= refs.len(),
            refs@ == repo.refs(),
            hexes(out@) == unique(issue_texts(refs@.take(i as int))),
        decreases refs.len() - i,
    {
        proof {
            assert(refs@.take(i + 1).drop_last() =~= refs@.take(i as int));
            assert(refs@.take(i + 1).last() == refs@[i as int]);
        }
        match IssueRefName::parse(refs[i].name.as_str()) {
            Some(n) => {
                let ghost before = hexes(out@);
                let ghost texts = issue_texts(refs@.take(i as int));
                proof {
                    assert(issue_texts(refs@.take(i + 1)) == texts.push(n.issue.hex()));
                    assert(issue_texts(refs@.take(i + 1)).drop_last() =~= texts);
                    if before.contains(n.issue.hex()) {
                        let k = choose|k: int| 0 <= k < before.len() && before[k] == n.issue.hex();
                        lemma_hex_injective(out@[k], n.issue);
                    }
                    if out@.contains(n.issue) {
                        let k = choose|k: int| 0 <= k < out@.len() && out@[k] == n.issue;
                        assert(before[k] == n.issue.hex());
                    }
                }
                if !contains_id(&out, &n.issue) {
                    out.push(n.issue);
                    proof {
                        assert(hexes(out@) =~= before.push(n.issue.hex()));
                    }
                }
            },
            None => {},
        }
        i += 1;
    }
    proof {
        assert(refs@.take(refs.len() as int) =~= refs@);
    }
    out
}

/// Whether the issue passes the filter.
pub open spec fn passing(repo: &Repository, filter: &MetadataFilter, issue: Oid) -> bool {
    passes_all(
        filter_views(filter.trailers@),
        issue_metadata(repo, issue, filter.prios.list(), keys_of(filter_views(filter.trailers@))),
    )
}

/// The test `passing`, as a value.
pub open spec fn passing_filter(repo: &Repository, filter: &MetadataFilter) -> spec_fn(
    Oid,
) -> bool {
    |issue: Oid| passing(repo, filter, issue)
}

/// The entries of the given issues, whose initial messages the repository
/// holds.
pub open spec fn entries_of(commits: Seq<Commit>, issues: Seq<Oid>) -> Seq<Entry> {
    Seq::new(
        issues.len(),
        |k: int|
            Entry { time: commits[position(commits, issues[k])].committer.time, issue: issues[k] },
    )
}

/// The issues of the given entries.
pub open spec fn issues_of(entries: Seq<Entry>) -> Seq<Oid> {
    Seq::new(entries.len(), |k: int| entries[k].issue)
}

/// The first `limit` of the items, or all of them where there are fewer or
/// no limit is given.
pub open spec fn limited<A>(s: Seq<A>, limit: Option<usize>) -> Seq<A> {
    match limit {
        Some(n) => if n < s.len() {
            s.take(n as int)
        } else {
            s
        },
        None => s,
    }
}

/// Lists those of the given issues that pass the filter, sorted by the
/// time of their initial messages, the newest first, and cut off behind the
/// first `limit` of them where a limit is given. The result is `NotFound`
/// where the repository does not hold the initial message of an issue that
/// passes the filter.
pub fn list_issues(
    repo: &Repository,
    issues: &Vec<Oid>,
    filter: &MetadataFilter,
    limit: Option<usize>,
) -> (r: Result<Vec<Oid>, Error>)
    requires
        repo.wf(),
    ensures
        ({
            let chosen = issues@.filter(passing_filter(repo, filter));
            if forall|k: int|
                0 <= k < chosen.len() ==> holds(repo.commits(), #[trigger] chosen[k]) {
                r is Ok && r->Ok_0@ == limited(
                    issues_of(sort_newest(entries_of(repo.commits(), chosen))),
                    limit,
                )
            } else {
                r == Err::<Vec<Oid>, Error>(Error::NotFound)
            }
        }),
{
    let ghost p = passing_filter(repo, filter);
    let ghost commits = repo.commits();
    let mut entries: Vec<Entry> = Vec::new();
    let mut i: usize = 0;
    proof {
        reveal(Seq::filter);
        assert(issues@.take(0) =~= Seq::<Oid>::empty());
        assert(entries@ =~= entries_of(commits, issues@.take(0).filter(p)));
    }
    while i < issues.len()
        invariant
            i <= issues.len(),
            repo.wf(),
            commits == repo.commits(),
            p == passing_filter(repo, filter),
            forall|k: int|
                0 <= k < issues@.take(i as int).filter(p).len() ==> holds(
                    commits,
                    #[trigger] issues@.take(i as int).filter(p)[k],
                ),
            entries@ == entries_of(commits, issues@.take(i as int).filter(p)),
        decreases issues.len() - i,
    {
        let ghost before = issues@.take(i as int).filter(p);
        proof {
            Seq::lemma_filter_push(issues@.take(i as int), issues@[i as int], p);
            assert(issues@.take(i as int).push(issues@[i as int]) =~= issues@.take(i + 1));
        }
        let issue = Issue::new(issues[i]);
        if filter.filter(repo, &issue) {
            match repo.find_commit(&issues[i]) {
                Some(c) => {
                    entries.push(Entry { time: c.committer.time, issue: issues[i] });
                    proof {
                        let now = issues@.take(i + 1).filter(p);
                        assert(now == before.push(issues@[i as int]));
                        assert(entries@ =~= entries_of(commits, now));
                        assert forall|k: int| 0 <= k < now.len() implies holds(
                            commits,
                            #[trigger] now[k],
                        ) by {
                            if k < before.len() {
                                assert(now[k] == before[k]);
                            }
                        }
                    }
                },
                None => {
                    proof {
                        let chosen = issues@.filter(p);
                        let now = issues@.take(i + 1).filter(p);
                        assert(now == before.push(issues@[i as int]));
                        assert(issues@ =~= issues@.take(i + 1) + issues@.skip(i + 1));
                        Seq::filter_distributes_over_add(
                            issues@.take(i + 1),
                            issues@.skip(i + 1),
                            p,
                        );
                        assert(chosen[now.len() - 1] == issues@[i as int]);
                    }
                    return Err(Error::NotFound);
                },
            }
        }
        i += 1;
    }
    proof {
        assert(issues@.take(issues.len() as int) =~= issues@);
    }
    let mut sorted = sort_entries(&entries);
    match limit {
        Some(n) => {
            if n < sorted.len() {
                sorted.truncate(n);
            }
        },
        None => {},
    }
    let ghost cut = sorted@;
    let mut out: Vec<Oid> = Vec::new();
    let mut k: usize = 0;
    while k < sorted.len()
        invariant
            k <= sorted.len(),
            out.len() == k,
            forall|x: int| 0 <= x < k ==> out@[x] == sorted@[x].issue,
        decreases sorted.len() - k,
    {
        out.push(sorted[k].issue);
        k += 1;
    }
    proof {
        let full = sort_newest(entries_of(commits, issues@.filter(p)));
        assert(cut =~= limited(full, limit));
        assert(out@ =~= limited(issues_of(full), limit));
    }
    Ok(out)
}

} // verus!
