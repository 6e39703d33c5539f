//! Filters on the metadata of issues.
//!
//! The metadata of an issue is what the trailers of its messages
//! accumulate to, read from the head of the issue along the chain of first
//! parents to the initial message, under the policy of the latest value. A
//! filter names a trailer and a test for its value.

use vstd::prelude::*;
use vstd::slice::slice_subrange;
use crate::accumulation::{
    first_with_key, latest_value, lemma_latest_is_first, lemma_process_concat, process_trailers,
    AccumulationPolicy, Accumulator, AccumulatorMap, AccumulatorView,
};
use crate::error::Error;
use crate::history::{chain, lemma_chain_bounds};
use crate::issue::{commits_of, ids_at, selecting, Issue, RefScope};
use crate::message::{parse_text, Message};
use crate::oid::Oid;
use crate::priorization::{is_selected, lemma_selected_unique, names_of, RemotePriorization};
use crate::reference::IssueRefType;
use crate::repository::{holds, lemma_position, position, Commit, Repository};
use crate::seqs::lemma_leading_at;
use crate::text::{chars_of, index_of_char, other_than, same_chars, string_of};
use crate::trailer::{
    issue_status_key, issue_type_key, trailer_views, value_of_text, Trailer, TrailerSpec,
    TrailerValue, TrailerView, ValueType, ValueView,
};

verus! {

/// A test for the value of a trailer.
#[derive(Clone, Debug, PartialEq, Eq)]
pub enum ValueMatcher {
    /// The value is the given one.
    Equals(TrailerValue),
}

/// What a `ValueMatcher` stands for.
pub enum MatcherView {
    Equals(ValueView),
}

impl View for ValueMatcher {
    type V = MatcherView;

    open spec fn view(&self) -> MatcherView {
        match self {
            ValueMatcher::Equals(v) => MatcherView::Equals(v@),
        }
    }
}

/// Whether the test accepts the value.
pub open spec fn accepts(m: MatcherView, v: ValueView) -> bool {
    match m {
        MatcherView::Equals(x) => x == v,
    }
}

impl ValueMatcher {
    /// Whether this test accepts the value.
    pub fn matches(&self, value: &TrailerValue) -> (r: bool)
        ensures
            r == accepts(self@, value@),
    {
        match self {
            ValueMatcher::Equals(x) => x.same(value),
        }
    }
}

/// A filter on one trailer: the description of the trailer and a test for
/// its value.
#[derive(Clone, Debug, PartialEq, Eq)]
pub struct TrailerFilter {
    pub spec: TrailerSpec,
    pub matcher: ValueMatcher,
}

/// What a `TrailerFilter` stands for: the key of the trailer and the test.
pub struct FilterView {
    pub key: Seq<char>,
    pub matcher: MatcherView,
}

impl View for TrailerFilter {
    type V = FilterView;

    open spec fn view(&self) -> FilterView {
        FilterView { key: self.spec.key@, matcher: self.matcher@ }
    }
}

/// The views of a sequence of filters.
pub open spec fn filter_views(filters: Seq<TrailerFilter>) -> Seq<FilterView> {
    Seq::new(filters.len(), |i: int| filters[i]@)
}

/// Whether the accumulated metadata `m` passes the filter: it holds a
/// latest value for the key of the filter, and the test accepts that value.
pub open spec fn passes(f: FilterView, m: Map<Seq<char>, AccumulatorView>) -> bool {
    match latest_value(m, f.key) {
        Some(v) => accepts(f.matcher, v),
        None => false,
    }
}

/// Whether the accumulated metadata `m` passes every one of the filters.
/// Without filters everything passes.
pub open spec fn passes_all(filters: Seq<FilterView>, m: Map<Seq<char>, AccumulatorView>) -> bool {
    forall|k: int| 0 <= k < filters.len() ==> passes(#[trigger] filters[k], m)
}

impl TrailerFilter {
    /// The filter on the trailer that `spec` describes with the test
    /// `matcher`.
    pub fn new(spec: TrailerSpec, matcher: ValueMatcher) -> (r: TrailerFilter)
        ensures
            r.spec == spec,
            r.matcher == matcher,
    {
        TrailerFilter { spec, matcher }
    }

    /// The description of the trailer.
    pub fn spec(&self) -> (r: &TrailerSpec)
        ensures
            *r == self.spec,
    {
        &self.spec
    }

    /// Whether the accumulated metadata passes this filter.
    pub fn matches(&self, acc: &AccumulatorMap) -> (r: bool)
        ensures
            r == passes(self@, acc.state()),
    {
        match acc.latest(self.spec.key.as_str()) {
            Some(v) => self.matcher.matches(v),
            None => false,
        }
    }
}

/// A rule for one piece of metadata, as it is given on the command line:
/// `status:<value>` or `type:<value>`.
#[derive(Clone, Debug, PartialEq, Eq)]
pub struct FilterSpec {
    /// The trailer to test.
    pub metadata: TrailerSpec,
    /// The test for its value.
    pub matcher: ValueMatcher,
}

/// Whether `s` is a rule: a known name, a colon, and a value.
pub open spec fn is_filter_text(s: Seq<char>) -> bool {
    let i = index_of_char(s, ':') as int;
    i < s.len() && (s.take(i) == "status"@ || s.take(i) == "type"@)
}

/// The filter that a rule stands for: the key is `Issue-status` for the
/// name `status` and `Issue-type` for the name `type`; the value behind the
/// first colon is read as the value of a trailer is, and the test is for
/// that value.
pub open spec fn filter_of_text(s: Seq<char>) -> FilterView {
    let i = index_of_char(s, ':') as int;
    FilterView {
        key: if s.take(i) == "status"@ {
            issue_status_key()
        } else {
            issue_type_key()
        },
        matcher: MatcherView::Equals(value_of_text(s.skip(i + 1))),
    }
}

impl FilterSpec {
    /// Reads a rule. A text that is none is refused, and the error
    /// carries it.
    pub fn from_str(s: &str) -> (r: Result<FilterSpec, Error>)
        ensures
            is_filter_text(s@) ==> r is Ok && r->Ok_0.metadata.key@ == filter_of_text(s@).key
                && r->Ok_0.matcher@ == filter_of_text(s@).matcher && r->Ok_0.metadata.value_type
                == ValueType::String,
            !is_filter_text(s@) ==> (r matches Err(Error::MalformedFilterSpec(t)) && t@ == s@),
    {
        let v = chars_of(s);
        let mut i: usize = 0;
        while i < v.len() && v[i] != ':'
            invariant
                i <= v.len(),
                forall|j: int| 0 <= j < i ==> #[trigger] v@[j] != ':',
            decreases v.len() - i,
        {
            i += 1;
        }
        proof {
            lemma_leading_at(v@, other_than(':'), i as int);
        }
        if i == v.len() {
            return Err(Error::MalformedFilterSpec(s.to_owned()));
        }
        let name = slice_subrange(v.as_slice(), 0, i);
        let status = chars_of("status");
        let kind = chars_of("type");
        let metadata = if same_chars(name, status.as_slice()) {
            TrailerSpec::issue_status()
        } else if same_chars(name, kind.as_slice()) {
            TrailerSpec::issue_type()
        } else {
            return Err(Error::MalformedFilterSpec(s.to_owned()));
        };
        let rest = string_of(slice_subrange(v.as_slice(), i + 1, v.len()));
        let value = TrailerValue::from_slice(rest.as_str());
        Ok(FilterSpec { metadata, matcher: ValueMatcher::Equals(value) })
    }
}

// ---------------------------------------------------------------------
// The metadata of an issue

/// The trailers of the given message texts, in order: those of the first
/// text come first.
pub open spec fn all_trailers(texts: Seq<Seq<char>>) -> Seq<TrailerView>
    decreases texts.len(),
{
    if texts.len() == 0 {
        Seq::empty()
    } else {
        all_trailers(texts.drop_last()) + parse_text(texts.last()).trailers
    }
}

/// The message texts of the given commits.
pub open spec fn texts_of(commits: Seq<&Commit>) -> Seq<Seq<char>> {
    Seq::new(commits.len(), |i: int| commits[i].message@)
}

/// Processes the trailers of the given messages, message by message in
/// their order, and within a message in the order of its lines.
pub fn accumulate_trailers<A: Accumulator>(acc: &mut A, messages: &Vec<&Commit>)
    ensures
        final(acc).state() == process_trailers(
            old(acc).state(),
            all_trailers(texts_of(messages@)),
        ),
{
    let ghost texts = texts_of(messages@);
    let ghost start = acc.state();
    let mut i: usize = 0;
    proof {
        assert(texts.take(0) =~= Seq::<Seq<char>>::empty());
    }
    while i < messages.len()
        invariant
            i <= messages.len(),
            texts == texts_of(messages@),
            acc.state() == process_trailers(start, all_trailers(texts.take(i as int))),
        decreases messages.len() - i,
    {
        let m = Message::parse(messages[i].message.as_str());
        proof {
            assert(texts.take(i + 1).drop_last() =~= texts.take(i as int));
            assert(texts.take(i + 1).last() == texts[i as int]);
            lemma_process_concat(
                start,
                all_trailers(texts.take(i as int)),
                parse_text(texts[i as int]).trailers,
            );
        }
        acc.process_all(m.trailers);
        i += 1;
    }
    proof {
        assert(texts.take(messages.len() as int) =~= texts);
    }
}

/// The trailers of the given messages, message by message in their order,
/// and within a message in the order of its lines.
pub fn trailers_of(messages: &Vec<&Commit>) -> (out: Vec<Trailer>)
    ensures
        trailer_views(out@) == all_trailers(texts_of(messages@)),
{
    let ghost texts = texts_of(messages@);
    let mut out: Vec<Trailer> = Vec::new();
    let mut i: usize = 0;
    proof {
        assert(texts.take(0) =~= Seq::<Seq<char>>::empty());
        assert(trailer_views(out@) =~= all_trailers(texts.take(0)));
    }
    while i < messages.len()
        invariant
            i <= messages.len(),
            texts == texts_of(messages@),
            trailer_views(out@) == all_trailers(texts.take(i as int)),
        decreases messages.len() - i,
    {
        let m = Message::parse(messages[i].message.as_str());
        let mut more = m.trailers;
        let ghost before = trailer_views(out@);
        let ghost added = trailer_views(more@);
        proof {
            assert(texts.take(i + 1).drop_last() =~= texts.take(i as int));
            assert(texts.take(i + 1).last() == texts[i as int]);
        }
        out.append(&mut more);
        proof {
            assert(trailer_views(out@) =~= before + added);
        }
        i += 1;
    }
    proof {
        assert(texts.take(messages.len() as int) =~= texts);
    }
    out
}

/// The accumulators with which the given keys start under the policy of
/// the latest value.
pub open spec fn fresh_latest(keys: Seq<Seq<char>>) -> Map<Seq<char>, AccumulatorView>
    decreases keys.len(),
{
    if keys.len() == 0 {
        Map::empty()
    } else {
        fresh_latest(keys.drop_last()).insert(keys.last(), AccumulatorView::Latest(None))
    }
}

/// The keys of the filters.
pub open spec fn keys_of(filters: Seq<FilterView>) -> Seq<Seq<char>> {
    Seq::new(filters.len(), |i: int| filters[i].key)
}

/// The commit that the head of an issue points to: the target of the
/// preferred one among the heads of the issue, local and remote, or none
/// where the issue has no head.
pub open spec fn head_commit(repo: &Repository, issue: Oid, prios: Seq<Seq<char>>) -> Option<Oid> {
    let heads = repo.refs().filter(selecting(issue, IssueRefType::Head, RefScope::All));
    if heads.len() == 0 {
        None
    } else {
        Some(heads[choose|i: int| is_selected(prios, names_of(heads), i)].target)
    }
}

/// The texts of the messages from the head of an issue along the chain of
/// first parents up to the initial message, the newest first. There is none
/// where the issue has no head or the repository does not hold the commit
/// that the head points to.
pub open spec fn head_messages(repo: &Repository, issue: Oid, prios: Seq<Seq<char>>) -> Seq<
    Seq<char>,
> {
    match head_commit(repo, issue, prios) {
        Some(h) => if holds(repo.commits(), h) {
            let at = chain(
                repo.commits(),
                position(repo.commits(), h),
                if holds(repo.commits(), issue) {
                    position(repo.commits(), issue)
                } else {
                    -1
                },
            );
            Seq::new(at.len(), |k: int| repo.commits()[at[k]].message@)
        } else {
            Seq::empty()
        },
        None => Seq::empty(),
    }
}

/// The metadata of an issue for the given keys: what the trailers of its
/// head messages accumulate to under the policy of the latest value.
pub open spec fn issue_metadata(
    repo: &Repository,
    issue: Oid,
    prios: Seq<Seq<char>>,
    keys: Seq<Seq<char>>,
) -> Map<Seq<char>, AccumulatorView> {
    process_trailers(fresh_latest(keys), all_trailers(head_messages(repo, issue, prios)))
}

/// The keys that start fresh are registered, each with nothing met yet, and
/// no others.
pub proof fn lemma_fresh_latest(keys: Seq<Seq<char>>, k: Seq<char>)
    ensures
        fresh_latest(keys).dom().contains(k) <==> keys.contains(k),
        keys.contains(k) ==> fresh_latest(keys)[k] == AccumulatorView::Latest(None),
    decreases keys.len(),
{
    if keys.len() > 0 {
        let init = keys.drop_last();
        lemma_fresh_latest(init, k);
        if keys.contains(k) {
            let i = choose|i: int| 0 <= i < keys.len() && keys[i] == k;
            if i < init.len() {
                assert(init[i] == k);
            }
        }
        if init.contains(k) {
            let i = choose|i: int| 0 <= i < init.len() && init[i] == k;
            assert(keys[i] == k);
        }
        if keys.last() == k {
            assert(keys[keys.len() - 1] == k);
        }
    }
}

/// The metadata of an issue holds, for each of the keys, the value of the
/// first trailer with that key among the trailers of the head messages,
/// which is the one of the newest message that has such a trailer; it holds
/// none where no message has one.
pub proof fn lemma_metadata_is_latest(
    repo: &Repository,
    issue: Oid,
    prios: Seq<Seq<char>>,
    keys: Seq<Seq<char>>,
    k: Seq<char>,
)
    requires
        keys.contains(k),
    ensures
        latest_value(issue_metadata(repo, issue, prios, keys), k) == first_with_key(
            all_trailers(head_messages(repo, issue, prios)),
            k,
        ),
{
    lemma_fresh_latest(keys, k);
    lemma_latest_is_first(
        fresh_latest(keys),
        all_trailers(head_messages(repo, issue, prios)),
        k,
    );
}

/// A filter on the metadata of issues.
pub struct MetadataFilter<'a> {
    pub prios: &'a RemotePriorization,
    pub trailers: Vec<TrailerFilter>,
}

impl<'a> MetadataFilter<'a> {
    /// The filter with the given rules.
    pub fn new(prios: &'a RemotePriorization, spec: Vec<FilterSpec>) -> (r: MetadataFilter<'a>)
        ensures
            r.prios == prios,
            r.trailers.len() == spec.len(),
            forall|i: int|
                0 <= i < spec.len() ==> (#[trigger] r.trailers[i]).spec == spec[i].metadata
                    && r.trailers[i].matcher == spec[i].matcher,
    {
        let ghost rules = spec@;
        let mut trailers: Vec<TrailerFilter> = Vec::new();
        for rule in it: spec
            invariant
                rules == it.seq(),
                trailers.len() == it.index(),
                forall|i: int|
                    0 <= i < it.index() ==> (#[trigger] trailers[i]).spec == rules[i].metadata
                        && trailers[i].matcher == rules[i].matcher,
        {
            trailers.push(TrailerFilter::new(rule.metadata, rule.matcher));
        }
        MetadataFilter { prios, trailers }
    }

    /// The filter without rules, which every issue passes.
    pub fn empty(prios: &'a RemotePriorization) -> (r: MetadataFilter<'a>)
        ensures
            r.prios == prios,
            r.trailers.len() == 0,
    {
        MetadataFilter { prios, trailers: Vec::new() }
    }

    /// Whether the issue passes the filter: each rule finds a latest value
    /// for its trailer in the metadata of the issue and accepts it. Without
    /// rules every issue passes.
    pub fn filter(&self, repo: &Repository, issue: &Issue) -> (r: bool)
        requires
            repo.wf(),
        ensures
            self.trailers.len() == 0 ==> r,
            r == passes_all(
                filter_views(self.trailers@),
                issue_metadata(
                    repo,
                    issue.id,
                    self.prios.list(),
                    keys_of(filter_views(self.trailers@)),
                ),
            ),
    {
        // Filtering may be expensive, so return early where there is no rule.
        if self.trailers.len() == 0 {
            return true;
        }
        let ghost filters = filter_views(self.trailers@);
        let ghost keys = keys_of(filters);
        let ghost prios = self.prios.list();
        let heads = issue.heads(repo);
        let head: Option<Oid> = match self.prios.select_index(&heads) {
            Some(i) => {
                proof {
                    let j = choose|j: int| is_selected(prios, names_of(heads@), j);
                    lemma_selected_unique(prios, names_of(heads@), i as int, j);
                }
                Some(heads[i].target)
            },
            None => None,
        };
        assert(head == head_commit(repo, issue.id, prios));
        let ids = match head {
            Some(h) => issue.messages_from(repo, &h),
            None => Vec::new(),
        };
        let commits = commits_of(repo, &ids);
        proof {
            let all = repo.commits();
            let hm = head_messages(repo, issue.id, prios);
            match head {
                Some(h) => {
                    if holds(all, h) {
                        let at = chain(
                            all,
                            position(all, h),
                            if holds(all, issue.id) {
                                position(all, issue.id)
                            } else {
                                -1
                            },
                        );
                        lemma_chain_bounds(
                            all,
                            position(all, h),
                            if holds(all, issue.id) {
                                position(all, issue.id)
                            } else {
                                -1
                            },
                        );
                        assert(ids@ == ids_at(all, at));
                        assert forall|k: int| 0 <= k < at.len() implies texts_of(commits@)[k]
                            == hm[k] by {
                            assert(ids@[k] == all[at[k]].id);
                            lemma_position(all, at[k]);
                        }
                        assert(texts_of(commits@) =~= hm);
                    } else {
                        assert(texts_of(commits@) =~= hm);
                    }
                },
                None => {
                    assert(texts_of(commits@) =~= hm);
                },
            }
        }
        let mut acc = AccumulatorMap::new();
        let mut k: usize = 0;
        proof {
            assert(keys.take(0) =~= Seq::<Seq<char>>::empty());
        }
        while k < self.trailers.len()
            invariant
                k <= self.trailers.len(),
                filters == filter_views(self.trailers@),
                keys == keys_of(filters),
                acc.state() == fresh_latest(keys.take(k as int)),
            decreases self.trailers.len() - k,
        {
            proof {
                assert(keys.take(k + 1).drop_last() =~= keys.take(k as int));
                assert(keys.take(k + 1).last() == self.trailers@[k as int].spec.key@);
            }
            acc.register(self.trailers[k].spec.key.clone(), AccumulationPolicy::Latest);
            k += 1;
        }
        proof {
            assert(keys.take(self.trailers.len() as int) =~= keys);
        }
        accumulate_trailers(&mut acc, &commits);
        let mut j: usize = 0;
        while j < self.trailers.len()
            invariant
                j <= self.trailers.len(),
                filters == filter_views(self.trailers@),
                acc.state() == issue_metadata(repo, issue.id, self.prios.list(), keys_of(filters)),
                forall|x: int| 0 <= x < j ==> passes(#[trigger] filters[x], acc.state()),
            decreases self.trailers.len() - j,
        {
            if !self.trailers[j].matches(&acc) {
                proof {
                    assert(!passes(filters[j as int], acc.state()));
                }
                return false;
            }
            j += 1;
        }
        true
    }
}

} // verus!
