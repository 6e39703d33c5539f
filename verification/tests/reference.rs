use libgitdit::oid::Oid;
use libgitdit::reference::{
    all_issues_refspec, issue_refspec, remote_name, IssueRefName, IssueRefType,
};

const REF_A: &str = "0a1b2c3d4e5f60718293a4b5c6d7e8f9012345ff";
const REF_B: &str = "ffffffffffffffffffffffffffffffffffffffff";

fn ref_oid(hex: &str) -> Oid {
    Oid::from_hex(hex).unwrap()
}

#[test]
fn classify_a_head_ref() {
    let name = format!("refs/dit/{}/head", REF_A);
    assert_eq!(IssueRefType::of_ref(&name), Some((ref_oid(REF_A), IssueRefType::Head)));
    let n = IssueRefName::parse(&name).unwrap();
    assert_eq!(n.issue, ref_oid(REF_A));
    assert_eq!(n.leaf, None);
    assert_eq!(n.remote, None);
    assert_eq!(n.kind(), IssueRefType::Head);
}

#[test]
fn classify_a_leaf_ref() {
    let name = format!("refs/dit/{}/leaves/{}", REF_A, REF_B);
    assert_eq!(IssueRefType::of_ref(&name), Some((ref_oid(REF_A), IssueRefType::Leaf)));
    let n = IssueRefName::parse(&name).unwrap();
    assert_eq!(n.leaf, Some(ref_oid(REF_B)));
    assert_eq!(n.remote, None);
}

#[test]
fn classify_remote_refs() {
    let head = format!("refs/remotes/origin/dit/{}/head", REF_A);
    assert_eq!(IssueRefType::of_ref(&head), Some((ref_oid(REF_A), IssueRefType::Head)));
    assert_eq!(IssueRefName::parse(&head).unwrap().remote, Some("origin".to_string()));
    let leaf = format!("refs/remotes/up-stream.1/dit/{}/leaves/{}", REF_B, REF_A);
    assert_eq!(IssueRefType::of_ref(&leaf), Some((ref_oid(REF_B), IssueRefType::Leaf)));
    let n = IssueRefName::parse(&leaf).unwrap();
    assert_eq!(n.remote, Some("up-stream.1".to_string()));
    assert_eq!(n.leaf, Some(ref_oid(REF_A)));
    assert_eq!(n.kind(), IssueRefType::Leaf);
}

#[test]
fn other_names_are_no_issue_refs() {
    let names = vec![
        String::new(),
        "refs/heads/master".to_string(),
        "refs/dit".to_string(),
        format!("refs/dit/{}", REF_A),
        format!("refs/dit/{}/", REF_A),
        format!("refs/dit/{}/head/", REF_A),
        format!("refs/dit/{}/heads", REF_A),
        format!("refs/dit/{}/leaves", REF_A),
        format!("refs/dit/{}/leaves/", REF_A),
        format!("refs/dit/{}/leaves/abc", REF_A),
        format!("refs/dit/{}/leaves/{}/x", REF_A, REF_B),
        format!("refs/dit/{}/head", &REF_A[1..]),
        format!("refs/dit/{}/head", REF_A.to_uppercase()),
        format!("refs/dit/{}0/head", REF_A),
        format!("/refs/dit/{}/head", REF_A),
        format!("refs//dit/{}/head", REF_A),
        format!("Refs/dit/{}/head", REF_A),
        format!("refs/remotes/dit/{}/head", REF_A),
        format!("refs/remotes//dit/{}/head", REF_A),
        format!("refs/remotes/a/b/dit/{}/head", REF_A),
        format!("refs/remotes/origin/{}/head", REF_A),
        format!("refs/remotes/origin/dit/{}/leaves/xyz", REF_A),
    ];
    for name in names {
        assert_eq!(IssueRefType::of_ref(&name), None, "{}", name);
        assert_eq!(IssueRefName::parse(&name), None, "{}", name);
    }
}

#[test]
fn to_name_writes_the_four_patterns() {
    let a = ref_oid(REF_A);
    let b = ref_oid(REF_B);
    let local_head = IssueRefName { issue: a, leaf: None, remote: None };
    assert_eq!(local_head.to_name(), format!("refs/dit/{}/head", REF_A));
    let local_leaf = IssueRefName { issue: a, leaf: Some(b), remote: None };
    assert_eq!(local_leaf.to_name(), format!("refs/dit/{}/leaves/{}", REF_A, REF_B));
    let remote_head = IssueRefName { issue: a, leaf: None, remote: Some("origin".to_string()) };
    assert_eq!(remote_head.to_name(), format!("refs/remotes/origin/dit/{}/head", REF_A));
    let remote_leaf = IssueRefName { issue: a, leaf: Some(b), remote: Some("fork".to_string()) };
    assert_eq!(remote_leaf.to_name(), format!("refs/remotes/fork/dit/{}/leaves/{}", REF_A, REF_B));
}

#[test]
fn of_ref_reads_back_every_name_pattern() {
    let a = ref_oid(REF_A);
    let b = ref_oid(REF_B);
    for remote in [None, Some("origin".to_string()), Some("x".to_string())] {
        for leaf in [None, Some(b), Some(a)] {
            let n = IssueRefName { issue: a, leaf, remote: remote.clone() };
            assert_eq!(IssueRefName::parse(&n.to_name()), Some(n.clone()));
            assert_eq!(IssueRefType::of_ref(&n.to_name()), Some((a, n.kind())));
        }
    }
}

#[test]
fn ref_type_words() {
    assert_eq!(IssueRefType::Head.word(), "head");
    assert_eq!(IssueRefType::Leaf.word(), "leaf");
    assert_eq!(IssueRefType::Any.word(), "unknown");
    assert_eq!(IssueRefType::Unknown.word(), "unknown");
}

#[test]
fn ref_type_accepts() {
    assert!(IssueRefType::Any.accepts(IssueRefType::Head));
    assert!(IssueRefType::Any.accepts(IssueRefType::Leaf));
    assert!(!IssueRefType::Any.accepts(IssueRefType::Unknown));
    assert!(IssueRefType::Head.accepts(IssueRefType::Head));
    assert!(!IssueRefType::Head.accepts(IssueRefType::Leaf));
    assert!(IssueRefType::Leaf.accepts(IssueRefType::Leaf));
    assert!(!IssueRefType::Leaf.accepts(IssueRefType::Head));
    assert!(!IssueRefType::Unknown.accepts(IssueRefType::Head));
}

#[test]
fn remote_name_of_a_reference() {
    assert_eq!(remote_name("refs/remotes/origin/master"), Some("origin".chars().collect()));
    assert_eq!(remote_name("refs/remotes/origin"), Some("origin".chars().collect()));
    assert_eq!(remote_name("refs/remotes/"), Some(Vec::new()));
    assert_eq!(remote_name("refs/remotes"), None);
    assert_eq!(remote_name("refs/heads/master"), None);
    assert_eq!(remote_name(&format!("refs/dit/{}/head", REF_A)), None);
    assert_eq!(
        remote_name(&format!("refs/remotes/fork/dit/{}/head", REF_A)),
        Some("fork".chars().collect())
    );
}

#[test]
fn refspecs_for_fetching() {
    assert_eq!(
        issue_refspec("origin", &ref_oid(REF_A)),
        format!("+refs/dit/{}/*:refs/remotes/origin/dit/{}/*", REF_A, REF_A)
    );
    assert_eq!(all_issues_refspec("origin"), "+refs/dit/*:refs/remotes/origin/dit/*");
}
