use libgitdit::error::Error;
use libgitdit::filters::{FilterSpec, MetadataFilter};
use libgitdit::listing::{list_issues, sort_entries, Entry};
use libgitdit::oid::Oid;
use libgitdit::priorization::RemotePriorization;
use libgitdit::time::Time;
use libgitdit::repository::{Commit, RefEdit, Repository, Signature};

fn listing_signature(seconds: i64) -> Signature {
    Signature {
        name: "A U Thor".to_string(),
        email: "author@example.org".to_string(),
        time: Time { seconds, offset: 0 },
    }
}

fn listing_oid(n: u8) -> Oid {
    Oid { bytes: [n; 20] }
}

fn listing_entry(time: i64, issue: u8) -> Entry {
    Entry { time: Time { seconds: time, offset: 0 }, issue: listing_oid(issue) }
}

/// Issues 1 to 5, each one message with a head; 2 and 4 are closed.
fn listing_repo() -> Repository {
    let mut repo = Repository::new();
    let issues: Vec<(u8, i64, &str)> =
        vec![(1, 300, "open"), (2, 500, "closed"), (3, 100, "open"), (4, 400, "closed"), (5, 300, "open")];
    for (id, time, status) in issues {
        repo.add_commit(Commit {
            id: listing_oid(id),
            parents: vec![],
            author: listing_signature(time),
            committer: listing_signature(time),
            tree: Oid { bytes: [0; 20] },
            message: format!("Issue {}\n\nIssue-status: {}\n", id, status),
        })
        .unwrap();
        repo.apply(&RefEdit {
            name: format!("refs/dit/{}/head", listing_oid(id).to_hex()),
            expected: None,
            target: Some(listing_oid(id)),
        })
        .unwrap();
    }
    repo
}

fn listing_ids(ids: &[u8]) -> Vec<Oid> {
    ids.iter().map(|n| listing_oid(*n)).collect()
}

#[test]
fn sort_entries_newest_first() {
    let entries = vec![
        listing_entry(5, 1),
        listing_entry(9, 2),
        listing_entry(-3, 3),
        listing_entry(9, 4),
        listing_entry(5, 5),
        listing_entry(i64::MAX, 6),
        listing_entry(i64::MIN, 7),
    ];
    assert_eq!(
        sort_entries(&entries),
        vec![
            listing_entry(i64::MAX, 6),
            listing_entry(9, 2),
            listing_entry(9, 4),
            listing_entry(5, 1),
            listing_entry(5, 5),
            listing_entry(-3, 3),
            listing_entry(i64::MIN, 7),
        ]
    );
    assert_eq!(sort_entries(&vec![]), vec![]);
}

#[test]
fn list_all_issues_newest_first() {
    let repo = listing_repo();
    let prios = RemotePriorization::new(vec![]);
    let filter = MetadataFilter::empty(&prios);
    assert_eq!(
        list_issues(&repo, &listing_ids(&[1, 2, 3, 4, 5]), &filter, None),
        Ok(listing_ids(&[2, 4, 1, 5, 3]))
    );
}

#[test]
fn list_issues_with_a_limit() {
    let repo = listing_repo();
    let prios = RemotePriorization::new(vec![]);
    let filter = MetadataFilter::empty(&prios);
    let all = listing_ids(&[5, 4, 3, 2, 1]);
    assert_eq!(list_issues(&repo, &all, &filter, Some(2)), Ok(listing_ids(&[2, 4])));
    assert_eq!(list_issues(&repo, &all, &filter, Some(3)), Ok(listing_ids(&[2, 4, 5])));
    assert_eq!(list_issues(&repo, &all, &filter, Some(0)), Ok(listing_ids(&[])));
    assert_eq!(list_issues(&repo, &all, &filter, Some(5)), Ok(listing_ids(&[2, 4, 5, 1, 3])));
    assert_eq!(list_issues(&repo, &all, &filter, Some(50)), Ok(listing_ids(&[2, 4, 5, 1, 3])));
}

#[test]
fn list_issues_that_pass_a_filter() {
    let repo = listing_repo();
    let prios = RemotePriorization::new(vec![]);
    let open = MetadataFilter::new(&prios, vec![FilterSpec::from_str("status:open").unwrap()]);
    let all = listing_ids(&[1, 2, 3, 4, 5]);
    assert_eq!(list_issues(&repo, &all, &open, None), Ok(listing_ids(&[1, 5, 3])));
    assert_eq!(list_issues(&repo, &all, &open, Some(1)), Ok(listing_ids(&[1])));
    let closed = MetadataFilter::new(&prios, vec![FilterSpec::from_str("status:closed").unwrap()]);
    assert_eq!(list_issues(&repo, &all, &closed, None), Ok(listing_ids(&[2, 4])));
}

#[test]
fn list_issues_needs_the_initial_messages() {
    let repo = listing_repo();
    let prios = RemotePriorization::new(vec![]);
    let filter = MetadataFilter::empty(&prios);
    assert_eq!(list_issues(&repo, &listing_ids(&[1, 77, 2]), &filter, None), Err(Error::NotFound));
    // an issue that the filter drops is not looked up
    let open = MetadataFilter::new(&prios, vec![FilterSpec::from_str("status:open").unwrap()]);
    assert_eq!(list_issues(&repo, &listing_ids(&[1, 77, 2]), &open, None), Ok(listing_ids(&[1])));
}
