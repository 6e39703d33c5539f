use libgitdit::error::Error;
use libgitdit::issue::Issue;
use libgitdit::mirror::{create_leaves, mirror, mirror_head, mirror_leaves, MirrorOptions};
use libgitdit::oid::Oid;
use libgitdit::priorization::RemotePriorization;
use libgitdit::reference::Reference;
use libgitdit::time::Time;
use libgitdit::repository::{Commit, RefEdit, Repository, Signature};

fn mirror_signature(seconds: i64) -> Signature {
    Signature {
        name: "A U Thor".to_string(),
        email: "author@example.org".to_string(),
        time: Time { seconds, offset: 0 },
    }
}

fn mirror_oid(n: u8) -> Oid {
    Oid { bytes: [n; 20] }
}

fn mirror_ref(name: String, target: u8) -> Reference {
    Reference { name, target: mirror_oid(target) }
}

fn mirror_local_head(issue: u8, target: u8) -> Reference {
    mirror_ref(format!("refs/dit/{}/head", mirror_oid(issue).to_hex()), target)
}

fn mirror_local_leaf(issue: u8, target: u8) -> Reference {
    mirror_ref(
        format!("refs/dit/{}/leaves/{}", mirror_oid(issue).to_hex(), mirror_oid(target).to_hex()),
        target,
    )
}

fn mirror_remote_head(remote: &str, issue: u8, target: u8) -> Reference {
    mirror_ref(format!("refs/remotes/{}/dit/{}/head", remote, mirror_oid(issue).to_hex()), target)
}

fn mirror_remote_leaf(remote: &str, issue: u8, target: u8) -> Reference {
    mirror_ref(
        format!(
            "refs/remotes/{}/dit/{}/leaves/{}",
            remote,
            mirror_oid(issue).to_hex(),
            mirror_oid(target).to_hex()
        ),
        target,
    )
}

/// 2 replies to 1, 3 replies to 2, 4 replies to 1, 5 replies to 4.
fn mirror_repo(refs: &[Reference]) -> Repository {
    let mut repo = Repository::new();
    let commits: Vec<(u8, Vec<u8>)> =
        vec![(1, vec![]), (2, vec![1]), (3, vec![2]), (4, vec![1]), (5, vec![4])];
    for (id, parents) in commits {
        repo.add_commit(Commit {
            id: mirror_oid(id),
            parents: parents.iter().map(|p| mirror_oid(*p)).collect(),
            author: mirror_signature(0),
            committer: mirror_signature(0),
            tree: Oid { bytes: [0; 20] },
            message: String::new(),
        })
        .unwrap();
    }
    for r in refs {
        repo.apply(&RefEdit { name: r.name.clone(), expected: None, target: Some(r.target) }).unwrap();
    }
    repo
}

fn mirror_prios(names: &[&str]) -> RemotePriorization {
    RemotePriorization::new(names.iter().map(|n| n.to_string()).collect())
}

#[test]
fn mirror_leaves_are_the_remote_leaves_that_are_not_known() {
    let repo = mirror_repo(&[
        mirror_local_head(1, 2),
        mirror_remote_leaf("origin", 1, 3),
        mirror_remote_leaf("origin", 1, 2),
        mirror_remote_leaf("origin", 1, 1),
        mirror_remote_leaf("origin", 1, 4),
        mirror_remote_leaf("origin", 1, 5),
        mirror_remote_leaf("origin", 1, 66),
    ]);
    // 2 and 1 hang by the local head, 4 is the parent of the leaf 5, and
    // 66 is not in the repository
    assert_eq!(
        mirror_leaves(&repo, &Issue::new(mirror_oid(1)), None),
        vec![mirror_oid(3), mirror_oid(5)]
    );
}

#[test]
fn mirror_leaves_of_one_remote() {
    let repo = mirror_repo(&[
        mirror_remote_leaf("origin", 1, 3),
        mirror_remote_leaf("fork", 1, 5),
        mirror_remote_leaf("fork", 1, 3),
        mirror_remote_leaf("fork", 7, 2),
        mirror_local_leaf(1, 5),
    ]);
    let issue = Issue::new(mirror_oid(1));
    assert_eq!(mirror_leaves(&repo, &issue, Some("origin")), vec![mirror_oid(3)]);
    assert_eq!(mirror_leaves(&repo, &issue, Some("fork")), vec![mirror_oid(3)]);
    assert_eq!(mirror_leaves(&repo, &issue, Some("other")), vec![]);
    // each leaf comes once
    assert_eq!(mirror_leaves(&repo, &issue, None), vec![mirror_oid(3)]);
}

#[test]
fn mirror_head_takes_the_preferred_remote_head() {
    let repo = mirror_repo(&[
        mirror_remote_head("origin", 1, 2),
        mirror_remote_head("upstream", 1, 3),
        mirror_remote_head("upstream", 9, 5),
    ]);
    let issue = Issue::new(mirror_oid(1));
    let name = format!("refs/dit/{}/head", mirror_oid(1).to_hex());
    assert_eq!(
        mirror_head(&repo, &issue, &mirror_prios(&["upstream", "origin"]), true, false),
        Ok(Some(RefEdit { name: name.clone(), expected: None, target: Some(mirror_oid(3)) }))
    );
    assert_eq!(
        mirror_head(&repo, &issue, &mirror_prios(&["origin"]), false, true),
        Ok(Some(RefEdit { name: name.clone(), expected: None, target: Some(mirror_oid(2)) }))
    );
    assert_eq!(mirror_head(&repo, &issue, &mirror_prios(&["origin"]), false, false), Ok(None));
    assert_eq!(
        mirror_head(&repo, &Issue::new(mirror_oid(4)), &mirror_prios(&["origin"]), true, true),
        Ok(None)
    );
}

#[test]
fn mirror_head_overwrites_only_on_update() {
    let repo = mirror_repo(&[mirror_local_head(1, 1), mirror_remote_head("origin", 1, 2)]);
    let issue = Issue::new(mirror_oid(1));
    let prios = mirror_prios(&[]);
    assert_eq!(mirror_head(&repo, &issue, &prios, true, false), Err(Error::AlreadyExists));
    assert_eq!(
        mirror_head(&repo, &issue, &prios, true, true),
        Ok(Some(RefEdit {
            name: format!("refs/dit/{}/head", mirror_oid(1).to_hex()),
            expected: Some(mirror_oid(1)),
            target: Some(mirror_oid(2)),
        }))
    );
}

#[test]
fn create_leaves_skips_existing_refs() {
    let repo = mirror_repo(&[mirror_local_leaf(1, 3)]);
    let issue = Issue::new(mirror_oid(1));
    assert_eq!(
        create_leaves(&repo, &issue, &vec![mirror_oid(3), mirror_oid(5)]),
        vec![RefEdit {
            name: issue.leaf_ref_name(&mirror_oid(5)),
            expected: None,
            target: Some(mirror_oid(5)),
        }]
    );
}

#[test]
fn mirror_plans_head_and_leaves() {
    let mut repo = mirror_repo(&[
        mirror_remote_head("origin", 1, 3),
        mirror_remote_leaf("origin", 1, 3),
        mirror_remote_leaf("origin", 1, 5),
    ]);
    let issue = Issue::new(mirror_oid(1));
    let prios = mirror_prios(&["origin"]);
    let all = MirrorOptions { clone_head: true, update_head: false, create_leaves: true };
    let plan = mirror(&repo, &issue, &prios, None, all).unwrap();
    assert_eq!(
        plan,
        vec![
            RefEdit { name: issue.head_ref_name(), expected: None, target: Some(mirror_oid(3)) },
            RefEdit { name: issue.leaf_ref_name(&mirror_oid(3)), expected: None, target: Some(mirror_oid(3)) },
            RefEdit { name: issue.leaf_ref_name(&mirror_oid(5)), expected: None, target: Some(mirror_oid(5)) },
        ]
    );
    for edit in &plan {
        repo.apply(edit).unwrap();
    }
    // a second run finds the head in place and nothing left to do
    assert_eq!(mirror(&repo, &issue, &prios, None, all), Err(Error::AlreadyExists));
    let leaves_only = MirrorOptions { clone_head: false, update_head: false, create_leaves: true };
    assert_eq!(mirror(&repo, &issue, &prios, None, leaves_only), Ok(vec![]));
    let nothing = MirrorOptions { clone_head: false, update_head: false, create_leaves: false };
    assert_eq!(mirror(&repo, &issue, &prios, Some("origin"), nothing), Ok(vec![]));
}
