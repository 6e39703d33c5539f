use libgitdit::accumulation::{
    AccumulationPolicy, Accumulator, AccumulatorMap, SingleAccumulator, ValueAccumulator,
};
use libgitdit::trailer::{Trailer, TrailerValue};

fn acc_text(s: &str) -> TrailerValue {
    TrailerValue::String(s.to_string())
}

fn acc_trailer(key: &str, value: &str) -> Trailer {
    Trailer { key: key.to_string(), value: acc_text(value) }
}

#[test]
fn latest_keeps_the_first_value() {
    let mut acc = ValueAccumulator::from(AccumulationPolicy::Latest);
    assert_eq!(acc, ValueAccumulator::Latest(None));
    acc.process(acc_text("closed"));
    assert_eq!(acc, ValueAccumulator::Latest(Some(acc_text("closed"))));
    acc.process(acc_text("open"));
    assert_eq!(acc, ValueAccumulator::Latest(Some(acc_text("closed"))));
}

#[test]
fn list_keeps_every_value_in_order() {
    let mut acc = ValueAccumulator::from(AccumulationPolicy::List);
    assert_eq!(acc, ValueAccumulator::List(vec![]));
    acc.process(acc_text("b"));
    acc.process(TrailerValue::Int(1));
    acc.process(acc_text("b"));
    assert_eq!(acc, ValueAccumulator::List(vec![acc_text("b"), TrailerValue::Int(1), acc_text("b")]));
}

#[test]
fn new_and_default_accumulators() {
    assert_eq!(ValueAccumulator::new(AccumulationPolicy::Latest), ValueAccumulator::Latest(None));
    assert_eq!(ValueAccumulator::new(AccumulationPolicy::List), ValueAccumulator::List(vec![]));
    assert_eq!(ValueAccumulator::default(), ValueAccumulator::Latest(None));
}

#[test]
fn into_values_gives_what_was_kept() {
    assert_eq!(ValueAccumulator::Latest(None).into_values(), vec![]);
    assert_eq!(ValueAccumulator::Latest(Some(acc_text("x"))).into_values(), vec![acc_text("x")]);
    assert_eq!(
        ValueAccumulator::List(vec![acc_text("x"), acc_text("y")]).into_values(),
        vec![acc_text("x"), acc_text("y")]
    );
    let acc = ValueAccumulator::List(vec![TrailerValue::Int(4)]);
    assert_eq!(acc.copy(), acc);
}

#[test]
fn policy_from_flags() {
    assert_eq!(AccumulationPolicy::from_flags(true), AccumulationPolicy::Latest);
    assert_eq!(AccumulationPolicy::from_flags(false), AccumulationPolicy::List);
}

#[test]
fn latest_accumulation_across_two_messages() {
    // the newest message comes first
    let mut acc = AccumulatorMap::new();
    acc.register("Issue-status".to_string(), AccumulationPolicy::Latest);
    acc.process_all(vec![acc_trailer("Issue-status", "closed")]);
    acc.process_all(vec![acc_trailer("Issue-status", "open")]);
    assert_eq!(acc.latest("Issue-status"), Some(&acc_text("closed")));
    assert_eq!(acc.get("Issue-status"), Some(&ValueAccumulator::Latest(Some(acc_text("closed")))));
}

#[test]
fn latest_is_the_value_of_the_newest_message_with_the_key() {
    let mut acc = AccumulatorMap::new();
    acc.register("A".to_string(), AccumulationPolicy::Latest);
    acc.register("B".to_string(), AccumulationPolicy::Latest);
    acc.register("C".to_string(), AccumulationPolicy::Latest);
    acc.process_all(vec![
        acc_trailer("B", "b1"),
        acc_trailer("X", "dropped"),
        acc_trailer("A", "a1"),
        acc_trailer("B", "b2"),
        acc_trailer("A", "a2"),
    ]);
    assert_eq!(acc.latest("A"), Some(&acc_text("a1")));
    assert_eq!(acc.latest("B"), Some(&acc_text("b1")));
    assert_eq!(acc.latest("C"), None);
    assert_eq!(acc.get("C"), Some(&ValueAccumulator::Latest(None)));
}

#[test]
fn unknown_keys_are_dropped() {
    let mut acc = AccumulatorMap::new();
    acc.register("Known".to_string(), AccumulationPolicy::List);
    acc.process(acc_trailer("Unknown", "x"));
    acc.process(acc_trailer("known", "wrong case"));
    acc.process(acc_trailer("Known", "y"));
    assert_eq!(acc.get("Unknown"), None);
    assert_eq!(acc.get("known"), None);
    assert_eq!(acc.get("Known"), Some(&ValueAccumulator::List(vec![acc_text("y")])));
    assert_eq!(acc.latest("Known"), None);
}

#[test]
fn insert_replaces_the_accumulator_of_a_key() {
    let mut acc = AccumulatorMap::new();
    acc.insert("K".to_string(), ValueAccumulator::Latest(Some(acc_text("old"))));
    acc.insert("L".to_string(), ValueAccumulator::List(vec![]));
    acc.insert("K".to_string(), ValueAccumulator::List(vec![acc_text("new")]));
    assert_eq!(acc.get("K"), Some(&ValueAccumulator::List(vec![acc_text("new")])));
    assert_eq!(acc.get("L"), Some(&ValueAccumulator::List(vec![])));
}

#[test]
fn single_accumulator_lists_the_values_of_its_key() {
    let mut acc = SingleAccumulator::new("Issue-status".to_string(), AccumulationPolicy::List);
    acc.process_all(vec![
        acc_trailer("Issue-status", "closed"),
        acc_trailer("Issue-type", "bug"),
        acc_trailer("Issue-status", "open"),
    ]);
    assert_eq!(acc.into_values(), vec![acc_text("closed"), acc_text("open")]);
}

#[test]
fn single_accumulator_gives_trailers() {
    let mut acc = SingleAccumulator::new("K".to_string(), AccumulationPolicy::List);
    acc.process(acc_trailer("K", "1st"));
    acc.process(acc_trailer("J", "no"));
    acc.process(Trailer { key: "K".to_string(), value: TrailerValue::Int(2) });
    assert_eq!(
        acc.into_trailers(),
        vec![
            acc_trailer("K", "1st"),
            Trailer { key: "K".to_string(), value: TrailerValue::Int(2) },
        ]
    );
}

#[test]
fn single_accumulator_latest() {
    let mut acc = SingleAccumulator::new("K".to_string(), AccumulationPolicy::Latest);
    assert_eq!(acc.key, "K");
    acc.process_all(vec![acc_trailer("J", "j"), acc_trailer("K", "new"), acc_trailer("K", "old")]);
    assert_eq!(acc.acc, ValueAccumulator::Latest(Some(acc_text("new"))));
    assert_eq!(acc.into_values(), vec![acc_text("new")]);
}
