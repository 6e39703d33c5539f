use libgitdit::accumulation::{AccumulationPolicy, Accumulator, AccumulatorMap, ValueAccumulator};
use libgitdit::error::Error;
use libgitdit::filters::{
    accumulate_trailers, trailers_of, FilterSpec, MetadataFilter, TrailerFilter, ValueMatcher,
};
use libgitdit::issue::Issue;
use libgitdit::oid::Oid;
use libgitdit::priorization::RemotePriorization;
use libgitdit::time::Time;
use libgitdit::repository::{Commit, RefEdit, Repository, Signature};
use libgitdit::trailer::{Trailer, TrailerSpec, TrailerValue};

fn filter_signature(seconds: i64) -> Signature {
    Signature {
        name: "A U Thor".to_string(),
        email: "author@example.org".to_string(),
        time: Time { seconds, offset: 0 },
    }
}

fn filter_oid(n: u8) -> Oid {
    Oid { bytes: [n; 20] }
}

fn filter_text(s: &str) -> TrailerValue {
    TrailerValue::String(s.to_string())
}

fn filter_commit(id: u8, parents: &[u8], message: &str) -> Commit {
    Commit {
        id: filter_oid(id),
        parents: parents.iter().map(|p| filter_oid(*p)).collect(),
        author: filter_signature(0),
        committer: filter_signature(0),
        tree: Oid { bytes: [0; 20] },
        message: message.to_string(),
    }
}

/// An issue whose first message opens it as a bug, whose second message
/// closes it, and whose third message opens it again.
fn filter_repo(head: u8) -> Repository {
    let mut repo = Repository::new();
    repo.add_commit(filter_commit(1, &[], "Crash\n\nIt crashes.\n\nIssue-status: open\nIssue-type: bug\n"))
        .unwrap();
    repo.add_commit(filter_commit(2, &[1], "Re: Crash\n\nFixed.\n\nIssue-status: closed\n")).unwrap();
    repo.add_commit(filter_commit(3, &[2], "Re: Crash\n\nStill crashes.\n\nIssue-status: open\n")).unwrap();
    repo.apply(&RefEdit {
        name: format!("refs/dit/{}/head", filter_oid(1).to_hex()),
        expected: None,
        target: Some(filter_oid(head)),
    })
    .unwrap();
    repo
}

fn filter_specs(rules: &[&str]) -> Vec<FilterSpec> {
    rules.iter().map(|r| FilterSpec::from_str(r).unwrap()).collect()
}

#[test]
fn filter_on_the_latest_status() {
    let prios = RemotePriorization::new(vec![]);
    let filter = MetadataFilter::new(&prios, filter_specs(&["status:open"]));
    let issue = Issue::new(filter_oid(1));
    // the latest status is closed
    assert!(!filter.filter(&filter_repo(2), &issue));
    // the latest status is open
    assert!(filter.filter(&filter_repo(3), &issue));
    assert!(filter.filter(&filter_repo(1), &issue));
}

#[test]
fn empty_filter_accepts_every_issue() {
    let prios = RemotePriorization::new(vec![]);
    let filter = MetadataFilter::empty(&prios);
    assert!(filter.trailers.is_empty());
    assert!(filter.filter(&filter_repo(2), &Issue::new(filter_oid(1))));
    assert!(filter.filter(&filter_repo(2), &Issue::new(filter_oid(9))));
    assert!(filter.filter(&Repository::new(), &Issue::new(filter_oid(1))));
    let none = MetadataFilter::new(&prios, vec![]);
    assert!(none.filter(&Repository::new(), &Issue::new(filter_oid(1))));
}

#[test]
fn every_rule_of_a_filter_has_to_hold() {
    let prios = RemotePriorization::new(vec![]);
    let issue = Issue::new(filter_oid(1));
    let repo = filter_repo(2);
    assert!(MetadataFilter::new(&prios, filter_specs(&["status:closed", "type:bug"])).filter(&repo, &issue));
    assert!(!MetadataFilter::new(&prios, filter_specs(&["status:closed", "type:feature"])).filter(&repo, &issue));
    assert!(!MetadataFilter::new(&prios, filter_specs(&["status:open", "type:bug"])).filter(&repo, &issue));
    assert!(MetadataFilter::new(&prios, filter_specs(&["type:bug"])).filter(&repo, &issue));
}

#[test]
fn a_filter_fails_where_the_trailer_is_missing() {
    let prios = RemotePriorization::new(vec![]);
    let filter = MetadataFilter::new(&prios, filter_specs(&["type:bug"]));
    let mut repo = Repository::new();
    repo.add_commit(filter_commit(1, &[], "No trailers\n")).unwrap();
    repo.apply(&RefEdit {
        name: format!("refs/dit/{}/head", filter_oid(1).to_hex()),
        expected: None,
        target: Some(filter_oid(1)),
    })
    .unwrap();
    assert!(!filter.filter(&repo, &Issue::new(filter_oid(1))));
    // an issue without a head has no metadata
    assert!(!filter.filter(&repo, &Issue::new(filter_oid(2))));
}

#[test]
fn the_filter_reads_the_preferred_head() {
    let mut repo = filter_repo(2);
    repo.apply(&RefEdit {
        name: format!("refs/remotes/origin/dit/{}/head", filter_oid(1).to_hex()),
        expected: None,
        target: Some(filter_oid(3)),
    })
    .unwrap();
    let prios = RemotePriorization::new(vec!["origin".to_string()]);
    let issue = Issue::new(filter_oid(1));
    // the local head at 2 wins over the remote head at 3
    assert!(MetadataFilter::new(&prios, filter_specs(&["status:closed"])).filter(&repo, &issue));
    assert!(!MetadataFilter::new(&prios, filter_specs(&["status:open"])).filter(&repo, &issue));
}

#[test]
fn filter_spec_from_str() {
    let status = FilterSpec::from_str("status:open").unwrap();
    assert_eq!(status.metadata, TrailerSpec::issue_status());
    assert_eq!(status.matcher, ValueMatcher::Equals(filter_text("open")));
    let kind = FilterSpec::from_str("type:a:b").unwrap();
    assert_eq!(kind.metadata, TrailerSpec::issue_type());
    assert_eq!(kind.matcher, ValueMatcher::Equals(filter_text("a:b")));
    let number = FilterSpec::from_str("status:12").unwrap();
    assert_eq!(number.matcher, ValueMatcher::Equals(TrailerValue::Int(12)));
    let empty = FilterSpec::from_str("type:").unwrap();
    assert_eq!(empty.matcher, ValueMatcher::Equals(filter_text("")));
}

#[test]
fn filter_spec_refuses_other_texts() {
    for s in ["", "status", "type", "priority:high", "Status:open", ":open", " status:open", "status :open"] {
        assert_eq!(FilterSpec::from_str(s), Err(Error::MalformedFilterSpec(s.to_string())));
    }
}

#[test]
fn value_matcher_equals() {
    let m = ValueMatcher::Equals(filter_text("open"));
    assert!(m.matches(&filter_text("open")));
    assert!(!m.matches(&filter_text("Open")));
    assert!(!m.matches(&TrailerValue::Int(1)));
    assert!(ValueMatcher::Equals(TrailerValue::Int(1)).matches(&TrailerValue::Int(1)));
}

#[test]
fn trailer_filter_matches_the_latest_value() {
    let f = TrailerFilter::new(TrailerSpec::issue_status(), ValueMatcher::Equals(filter_text("open")));
    assert_eq!(f.spec(), &TrailerSpec::issue_status());
    let mut acc = AccumulatorMap::new();
    assert!(!f.matches(&acc));
    acc.register("Issue-status".to_string(), AccumulationPolicy::Latest);
    assert!(!f.matches(&acc));
    acc.process(Trailer { key: "Issue-status".to_string(), value: filter_text("open") });
    assert!(f.matches(&acc));
    let mut listed = AccumulatorMap::new();
    listed.insert("Issue-status".to_string(), ValueAccumulator::List(vec![filter_text("open")]));
    assert!(!f.matches(&listed));
}

#[test]
fn trailers_of_messages_in_order() {
    let a = filter_commit(3, &[], "S\n\nB: 2\nA: x\n");
    let b = filter_commit(2, &[], "No trailers here\n");
    let c = filter_commit(1, &[], "S\n\ntext\n\nA: y\n");
    let messages = vec![&a, &b, &c];
    assert_eq!(
        trailers_of(&messages),
        vec![
            Trailer { key: "B".to_string(), value: TrailerValue::Int(2) },
            Trailer { key: "A".to_string(), value: filter_text("x") },
            Trailer { key: "A".to_string(), value: filter_text("y") },
        ]
    );
    let mut acc = AccumulatorMap::new();
    acc.register("A".to_string(), AccumulationPolicy::Latest);
    accumulate_trailers(&mut acc, &messages);
    assert_eq!(acc.latest("A"), Some(&filter_text("x")));
}
