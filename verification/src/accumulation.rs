//! Accumulation of trailers into the metadata of an issue.
//!
//! Trailers are processed in the order in which they are met, from the
//! newest message of an issue to its oldest. For each key that was
//! registered, an accumulator keeps either the first value that it met, which
//! is the latest one, or all of them.

use vstd::prelude::*;
use crate::seqs::{lemma_leading_at, lemma_leading_run};
use crate::text::{differs_from, first_index_of, same_text};
use crate::trailer::{trailer_views, value_views, Trailer, TrailerValue, TrailerView, ValueView};

verus! {

/// How the values of one key are accumulated.
#[derive(Clone, Copy, Debug, PartialEq, Eq, Structural)]
pub enum AccumulationPolicy {
    /// Keep the first value that is met and ignore the others.
    Latest,
    /// Keep every value, in the order in which they are met.
    List,
}

impl AccumulationPolicy {
    /// The policy that was asked for: that of the latest value where
    /// `latest` is set, and that of all values otherwise.
    pub fn from_flags(latest: bool) -> (r: AccumulationPolicy)
        ensures
            r == if latest {
                AccumulationPolicy::Latest
            } else {
                AccumulationPolicy::List
            },
    {
        if latest {
            AccumulationPolicy::Latest
        } else {
            AccumulationPolicy::List
        }
    }
}

/// The values of one key, accumulated.
#[derive(Clone, Debug, PartialEq, Eq)]
pub enum ValueAccumulator {
    Latest(Option<TrailerValue>),
    List(Vec<TrailerValue>),
}

/// What a `ValueAccumulator` stands for.
pub enum AccumulatorView {
    Latest(Option<ValueView>),
    List(Seq<ValueView>),
}

impl View for ValueAccumulator {
    type V = AccumulatorView;

    open spec fn view(&self) -> AccumulatorView {
        match self {
            ValueAccumulator::Latest(None) => AccumulatorView::Latest(None),
            ValueAccumulator::Latest(Some(v)) => AccumulatorView::Latest(Some(v@)),
            ValueAccumulator::List(vs) => AccumulatorView::List(value_views(vs@)),
        }
    }
}

/// The accumulator with which a policy starts: nothing met yet.
pub open spec fn fresh(policy: AccumulationPolicy) -> AccumulatorView {
    match policy {
        AccumulationPolicy::Latest => AccumulatorView::Latest(None),
        AccumulationPolicy::List => AccumulatorView::List(Seq::empty()),
    }
}

/// An accumulator after it has met one more value.
pub open spec fn process_value(acc: AccumulatorView, v: ValueView) -> AccumulatorView {
    match acc {
        AccumulatorView::Latest(None) => AccumulatorView::Latest(Some(v)),
        AccumulatorView::Latest(Some(x)) => AccumulatorView::Latest(Some(x)),
        AccumulatorView::List(vs) => AccumulatorView::List(vs.push(v)),
    }
}

/// The values that an accumulator holds, in the order in which it met them.
pub open spec fn accumulated_values(acc: AccumulatorView) -> Seq<ValueView> {
    match acc {
        AccumulatorView::Latest(None) => Seq::empty(),
        AccumulatorView::Latest(Some(x)) => seq![x],
        AccumulatorView::List(vs) => vs,
    }
}

impl ValueAccumulator {
    /// Processes a new value: an accumulator of the latest value keeps it
    /// if it holds none yet, an accumulator of all values adds it at the
    /// end.
    pub fn process(&mut self, new_value: TrailerValue)
        ensures
            final(self)@ == process_value(old(self)@, new_value@),
    {
        match self {
            ValueAccumulator::Latest(value) => {
                if value.is_none() {
                    *value = Some(new_value);
                }
            },
            ValueAccumulator::List(values) => {
                proof {
                    assert(value_views(values@.push(new_value)) =~= value_views(values@).push(
                        new_value@,
                    ));
                }
                values.push(new_value);
            },
        }
    }

    /// The accumulator with which `policy` starts.
    pub fn new(policy: AccumulationPolicy) -> (r: ValueAccumulator)
        ensures
            r@ == fresh(policy),
    {
        match policy {
            AccumulationPolicy::Latest => ValueAccumulator::Latest(None),
            AccumulationPolicy::List => {
                let r = ValueAccumulator::List(Vec::new());
                proof {
                    assert(value_views(Seq::<TrailerValue>::empty()) =~= Seq::<ValueView>::empty());
                }
                r
            },
        }
    }

    /// The values that were accumulated, in the order in which they were
    /// met.
    pub fn into_values(self) -> (r: Vec<TrailerValue>)
        ensures
            value_views(r@) == accumulated_values(self@),
    {
        match self {
            ValueAccumulator::Latest(None) => {
                let r: Vec<TrailerValue> = Vec::new();
                proof {
                    assert(value_views(r@) =~= Seq::<ValueView>::empty());
                }
                r
            },
            ValueAccumulator::Latest(Some(v)) => {
                let mut r: Vec<TrailerValue> = Vec::new();
                r.push(v);
                proof {
                    assert(value_views(r@) =~= seq![v@]);
                }
                r
            },
            ValueAccumulator::List(vs) => vs,
        }
    }

    /// A copy of this accumulator.
    pub fn copy(&self) -> (r: ValueAccumulator)
        ensures
            r@ == self@,
    {
        match self {
            ValueAccumulator::Latest(None) => ValueAccumulator::Latest(None),
            ValueAccumulator::Latest(Some(v)) => ValueAccumulator::Latest(Some(v.copy())),
            ValueAccumulator::List(vs) => {
                let mut out: Vec<TrailerValue> = Vec::new();
                let mut i: usize = 0;
                while i < vs.len()
                    invariant
                        i <= vs.len(),
                        out.len() == i,
                        forall|k: int| 0 <= k < i ==> (#[trigger] out@[k])@ == vs@[k]@,
                    decreases vs.len() - i,
                {
                    out.push(vs[i].copy());
                    i += 1;
                }
                proof {
                    assert(value_views(out@) =~= value_views(vs@));
                }
                ValueAccumulator::List(out)
            },
        }
    }
}

impl From<AccumulationPolicy> for ValueAccumulator {
    /// The accumulator with which `policy` starts.
    fn from(policy: AccumulationPolicy) -> (r: ValueAccumulator)
        ensures
            r@ == fresh(policy),
    {
        ValueAccumulator::new(policy)
    }
}

impl vstd::std_specs::convert::FromSpecImpl<AccumulationPolicy> for ValueAccumulator {
    open spec fn obeys_from_spec() -> bool {
        false
    }

    open spec fn from_spec(policy: AccumulationPolicy) -> ValueAccumulator {
        ValueAccumulator::Latest(None)
    }
}

impl Default for ValueAccumulator {
    fn default() -> (r: ValueAccumulator)
        ensures
            r@ == AccumulatorView::Latest(None),
    {
        ValueAccumulator::Latest(None)
    }
}

// ---------------------------------------------------------------------
// Accumulators of trailers

/// The accumulators by key after one more trailer: the accumulator of the
/// trailer's key has met the trailer's value; a trailer with a key that is
/// not registered changes nothing.
pub open spec fn process_trailer(
    m: Map<Seq<char>, AccumulatorView>,
    t: TrailerView,
) -> Map<Seq<char>, AccumulatorView> {
    if m.dom().contains(t.key) {
        m.insert(t.key, process_value(m[t.key], t.value))
    } else {
        m
    }
}

/// The accumulators by key after the given trailers, processed in order.
pub open spec fn process_trailers(
    m: Map<Seq<char>, AccumulatorView>,
    ts: Seq<TrailerView>,
) -> Map<Seq<char>, AccumulatorView>
    decreases ts.len(),
{
    if ts.len() == 0 {
        m
    } else {
        process_trailers(process_trailer(m, ts[0]), ts.drop_first())
    }
}

/// The value of the first of the trailers that has the key `k`, if there is
/// one.
pub open spec fn first_with_key(ts: Seq<TrailerView>, k: Seq<char>) -> Option<ValueView>
    decreases ts.len(),
{
    if ts.len() == 0 {
        None
    } else if ts[0].key == k {
        Some(ts[0].value)
    } else {
        first_with_key(ts.drop_first(), k)
    }
}

/// The values of those of the trailers that have the key `k`, in order.
pub open spec fn all_with_key(ts: Seq<TrailerView>, k: Seq<char>) -> Seq<ValueView>
    decreases ts.len(),
{
    if ts.len() == 0 {
        Seq::empty()
    } else if ts[0].key == k {
        seq![ts[0].value] + all_with_key(ts.drop_first(), k)
    } else {
        all_with_key(ts.drop_first(), k)
    }
}

/// Processing trailers registers no key and drops none.
pub proof fn lemma_process_keeps_keys(m: Map<Seq<char>, AccumulatorView>, ts: Seq<TrailerView>)
    ensures
        process_trailers(m, ts).dom() == m.dom(),
    decreases ts.len(),
{
    if ts.len() > 0 {
        let m1 = process_trailer(m, ts[0]);
        assert(m1.dom() =~= m.dom());
        lemma_process_keeps_keys(m1, ts.drop_first());
    }
}

/// Under the policy of the latest value, the accumulator of a key holds,
/// after the trailers were processed, what it held before, and else the value
/// of the first of the trailers with that key, and nothing where there is
/// none. The trailers come from the newest message to the oldest, so the
/// first is the latest.
pub proof fn lemma_latest_is_first(
    m: Map<Seq<char>, AccumulatorView>,
    ts: Seq<TrailerView>,
    k: Seq<char>,
)
    requires
        m.dom().contains(k),
        m[k] is Latest,
    ensures
        process_trailers(m, ts).dom().contains(k),
        process_trailers(m, ts)[k] == AccumulatorView::Latest(
            if m[k]->Latest_0 is Some {
                m[k]->Latest_0
            } else {
                first_with_key(ts, k)
            },
        ),
    decreases ts.len(),
{
    if ts.len() > 0 {
        let m1 = process_trailer(m, ts[0]);
        lemma_latest_is_first(m1, ts.drop_first(), k);
    }
}

/// Under the policy of all values, the accumulator of a key holds, after the
/// trailers were processed, what it held before and then the values of the
/// trailers with that key, in order.
pub proof fn lemma_list_is_all(
    m: Map<Seq<char>, AccumulatorView>,
    ts: Seq<TrailerView>,
    k: Seq<char>,
)
    requires
        m.dom().contains(k),
        m[k] is List,
    ensures
        process_trailers(m, ts).dom().contains(k),
        process_trailers(m, ts)[k] == AccumulatorView::List(m[k]->List_0 + all_with_key(ts, k)),
    decreases ts.len(),
{
    if ts.len() > 0 {
        let m1 = process_trailer(m, ts[0]);
        lemma_list_is_all(m1, ts.drop_first(), k);
        if ts[0].key == k {
            assert(m[k]->List_0.push(ts[0].value) + all_with_key(ts.drop_first(), k)
                =~= m[k]->List_0 + all_with_key(ts, k));
        }
    } else {
        assert(m[k]->List_0 + all_with_key(ts, k) =~= m[k]->List_0);
    }
}

/// Processing two runs of trailers one after the other is processing their
/// concatenation.
pub proof fn lemma_process_concat(
    m: Map<Seq<char>, AccumulatorView>,
    a: Seq<TrailerView>,
    b: Seq<TrailerView>,
)
    ensures
        process_trailers(process_trailers(m, a), b) == process_trailers(m, a + b),
    decreases a.len(),
{
    if a.len() == 0 {
        assert(a + b =~= b);
    } else {
        lemma_process_concat(process_trailer(m, a[0]), a.drop_first(), b);
        assert((a + b).drop_first() =~= a.drop_first() + b);
        assert((a + b)[0] == a[0]);
    }
}

/// Something that accumulates trailers.
pub trait Accumulator {
    /// What has been accumulated, for each key that is registered.
    spec fn state(&self) -> Map<Seq<char>, AccumulatorView>;

    /// Processes a new trailer: where its key is registered, the accumulator
    /// of that key processes its value; else nothing changes.
    fn process(&mut self, trailer: Trailer)
        ensures
            final(self).state() == process_trailer(old(self).state(), trailer@),
    ;

    /// Processes all the given trailers, in order.
    fn process_all(&mut self, trailers: Vec<Trailer>)
        ensures
            final(self).state() == process_trailers(old(self).state(), trailer_views(trailers@)),
    {
        let ghost ts = trailer_views(trailers@);
        let ghost start = self.state();
        proof {
            assert(ts.skip(0) =~= ts);
        }
        for t in it: trailers
            invariant
                ts == trailer_views(it.seq()),
                process_trailers(self.state(), ts.skip(it.index() as int)) == process_trailers(
                    start,
                    ts,
                ),
        {
            proof {
                let i = it.index() as int;
                assert(t@ == ts[i]);
                assert(ts.skip(i).drop_first() =~= ts.skip(i + 1));
                assert(ts.skip(i)[0] == ts[i]);
            }
            self.process(t);
        }
    }
}

/// Accumulators by key.
pub struct AccumulatorMap {
    entries: Vec<(String, ValueAccumulator)>,
}

impl AccumulatorMap {
    /// The keys of the entries, in the order in which they were registered.
    pub closed spec fn keys(&self) -> Seq<Seq<char>> {
        Seq::new(self.entries@.len(), |i: int| self.entries@[i].0@)
    }

    /// A map without keys.
    pub fn new() -> (r: AccumulatorMap)
        ensures
            r.state() == Map::<Seq<char>, AccumulatorView>::empty(),
    {
        let r = AccumulatorMap { entries: Vec::new() };
        proof {
            assert(r.state() =~= Map::<Seq<char>, AccumulatorView>::empty());
        }
        r
    }

    /// The place of the entry of `key`, or the number of entries where there
    /// is none.
    fn find(&self, key: &str) -> (i: usize)
        ensures
            i == first_index_of(self.keys(), key@),
            i <= self.entries.len(),
    {
        let mut i: usize = 0;
        while i < self.entries.len() && !same_text(self.entries[i].0.as_str(), key)
            invariant
                i <= self.entries.len(),
                forall|j: int| 0 <= j < i ==> differs_from(key@)(#[trigger] self.keys()[j]),
            decreases self.entries.len() - i,
        {
            i += 1;
        }
        proof {
            if i < self.entries.len() {
                assert(self.keys()[i as int] == key@);
            }
            lemma_leading_at(self.keys(), differs_from(key@), i as int);
        }
        i
    }

    /// Registers `key` with the accumulator `acc`, in place of the one that
    /// it may have had.
    pub fn insert(&mut self, key: String, acc: ValueAccumulator)
        ensures
            final(self).state() == old(self).state().insert(key@, acc@),
    {
        let i = self.find(key.as_str());
        let ghost before = self.keys();
        if i < self.entries.len() {
            let (k, _) = self.entries.remove(i);
            self.entries.insert(i, (k, acc));
            proof {
                assert(self.entries@ =~= old(self).entries@.update(i as int, (k, acc)));
                assert(self.keys() =~= before);
                assert forall|x: Seq<char>| first_index_of(before, x) == i <==> x == key@ by {
                    lemma_leading_run(before, differs_from(x));
                    lemma_leading_run(before, differs_from(key@));
                }
            }
        } else {
            self.entries.push((key, acc));
            proof {
                assert(self.keys() =~= before.push(key@));
                assert forall|k: Seq<char>|
                    first_index_of(self.keys(), k) == (if k == key@ {
                        before.len()
                    } else if first_index_of(before, k) < before.len() {
                        first_index_of(before, k)
                    } else {
                        self.keys().len()
                    }) by {
                    lemma_leading_run(before, differs_from(k));
                    let j = if k == key@ {
                        before.len() as int
                    } else if first_index_of(before, k) < before.len() {
                        first_index_of(before, k) as int
                    } else {
                        self.keys().len() as int
                    };
                    lemma_leading_at(self.keys(), differs_from(k), j);
                }
            }
        }
        proof {
            assert(self.state() =~= old(self).state().insert(key@, acc@));
        }
    }

    /// Registers `key` with the accumulator with which `policy` starts.
    pub fn register(&mut self, key: String, policy: AccumulationPolicy)
        ensures
            final(self).state() == old(self).state().insert(key@, fresh(policy)),
    {
        self.insert(key, ValueAccumulator::new(policy));
    }

    /// The accumulator of `key`, if the key is registered.
    pub fn get(&self, key: &str) -> (r: Option<&ValueAccumulator>)
        ensures
            r is Some <==> self.state().dom().contains(key@),
            r is Some ==> r.unwrap()@ == self.state()[key@],
    {
        let i = self.find(key);
        if i < self.entries.len() {
            Some(&self.entries[i].1)
        } else {
            None
        }
    }

    /// The latest value of `key`: the one that its accumulator holds where
    /// the key is registered under the policy of the latest value and a value
    /// was met.
    pub fn latest(&self, key: &str) -> (r: Option<&TrailerValue>)
        ensures
            r is Some <==> latest_value(self.state(), key@) is Some,
            r is Some ==> r.unwrap()@ == latest_value(self.state(), key@).unwrap(),
    {
        match self.get(key) {
            Some(ValueAccumulator::Latest(Some(v))) => Some(v),
            _ => None,
        }
    }
}

/// The latest value of `k` in the accumulated state `m`, if `k` is
/// registered under the policy of the latest value and a value was met.
pub open spec fn latest_value(m: Map<Seq<char>, AccumulatorView>, k: Seq<char>) -> Option<
    ValueView,
> {
    if m.dom().contains(k) {
        match m[k] {
            AccumulatorView::Latest(v) => v,
            AccumulatorView::List(_) => None,
        }
    } else {
        None
    }
}

impl Accumulator for AccumulatorMap {
    closed spec fn state(&self) -> Map<Seq<char>, AccumulatorView> {
        Map::new(
            |k: Seq<char>| first_index_of(self.keys(), k) < self.entries@.len(),
            |k: Seq<char>| self.entries@[first_index_of(self.keys(), k) as int].1@,
        )
    }

    fn process(&mut self, trailer: Trailer) {
        let i = self.find(trailer.key.as_str());
        let ghost before = self.keys();
        if i < self.entries.len() {
            let (k, mut acc) = self.entries.remove(i);
            acc.process(trailer.value);
            self.entries.insert(i, (k, acc));
            proof {
                assert(self.entries@ =~= old(self).entries@.update(i as int, (k, acc)));
                assert(self.keys() =~= before);
                assert forall|x: Seq<char>| first_index_of(before, x) == i <==> x
                    == trailer.key@ by {
                    lemma_leading_run(before, differs_from(x));
                    lemma_leading_run(before, differs_from(trailer.key@));
                }
                assert(self.state() =~= process_trailer(old(self).state(), trailer@));
            }
        }
    }
}

/// The accumulator of one key.
pub struct SingleAccumulator {
    pub key: String,
    pub acc: ValueAccumulator,
}

impl SingleAccumulator {
    /// The accumulator of `key` with which `policy` starts.
    pub fn new(key: String, policy: AccumulationPolicy) -> (r: SingleAccumulator)
        ensures
            r.key@ == key@,
            r.acc@ == fresh(policy),
    {
        SingleAccumulator { key, acc: ValueAccumulator::new(policy) }
    }

    /// The values that were accumulated, in the order in which they were
    /// met.
    pub fn into_values(self) -> (r: Vec<TrailerValue>)
        ensures
            value_views(r@) == accumulated_values(self.acc@),
    {
        self.acc.into_values()
    }

    /// The values that were accumulated, each as a trailer with the key of
    /// this accumulator, in the order in which they were met.
    pub fn into_trailers(self) -> (r: Vec<Trailer>)
        ensures
            trailer_views(r@) == Seq::new(
                accumulated_values(self.acc@).len(),
                |i: int| TrailerView { key: self.key@, value: accumulated_values(self.acc@)[i] },
            ),
    {
        let key = self.key;
        let values = self.acc.into_values();
        let ghost vs = value_views(values@);
        let mut out: Vec<Trailer> = Vec::new();
        for v in it: values
            invariant
                vs == value_views(it.seq()),
                out.len() == it.index(),
                forall|k: int|
                    0 <= k < it.index() ==> (#[trigger] out@[k])@ == (TrailerView {
                        key: key@,
                        value: vs[k],
                    }),
        {
            assert(v@ == vs[it.index() as int]);
            out.push(Trailer { key: key.clone(), value: v });
        }
        proof {
            assert(trailer_views(out@) =~= Seq::new(
                vs.len(),
                |i: int| TrailerView { key: key@, value: vs[i] },
            ));
        }
        out
    }
}

impl Accumulator for SingleAccumulator {
    open spec fn state(&self) -> Map<Seq<char>, AccumulatorView> {
        Map::empty().insert(self.key@, self.acc@)
    }

    fn process(&mut self, trailer: Trailer) {
        if same_text(trailer.key.as_str(), self.key.as_str()) {
            self.acc.process(trailer.value);
            proof {
                assert(self.state() =~= process_trailer(old(self).state(), trailer@));
            }
        } else {
            proof {
                assert(self.state() =~= process_trailer(old(self).state(), trailer@));
            }
        }
    }
}

} // verus!
