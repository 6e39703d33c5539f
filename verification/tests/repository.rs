use libgitdit::error::Error;
use libgitdit::oid::Oid;
use libgitdit::reference::Reference;
use libgitdit::time::Time;
use libgitdit::repository::{Commit, RefEdit, Repository, Signature};

fn repo_signature(seconds: i64) -> Signature {
    Signature {
        name: "A U Thor".to_string(),
        email: "author@example.org".to_string(),
        time: Time { seconds, offset: 0 },
    }
}

fn repo_oid(n: u8) -> Oid {
    Oid { bytes: [n; 20] }
}

fn repo_commit(id: u8, parents: &[u8]) -> Commit {
    Commit {
        id: repo_oid(id),
        parents: parents.iter().map(|p| repo_oid(*p)).collect(),
        author: repo_signature(id as i64),
        committer: repo_signature(id as i64),
        tree: Oid { bytes: [0; 20] },
        message: format!("message {}", id),
    }
}

fn repo_edit(name: &str, expected: Option<u8>, target: Option<u8>) -> RefEdit {
    RefEdit { name: name.to_string(), expected: expected.map(repo_oid), target: target.map(repo_oid) }
}

#[test]
fn new_repository_is_empty() {
    let repo = Repository::new();
    assert_eq!(repo.len(), 0);
    assert!(repo.references().is_empty());
    assert_eq!(repo.index_of(&repo_oid(1)), None);
    assert_eq!(repo.find_commit(&repo_oid(1)), None);
    assert_eq!(repo.find_reference("refs/heads/master"), None);
}

#[test]
fn add_commit_keeps_the_order_of_entry() {
    let mut repo = Repository::new();
    assert_eq!(repo.add_commit(repo_commit(1, &[])), Ok(()));
    assert_eq!(repo.add_commit(repo_commit(2, &[1])), Ok(()));
    assert_eq!(repo.add_commit(repo_commit(3, &[2, 9])), Ok(()));
    assert_eq!(repo.len(), 3);
    assert_eq!(repo.index_of(&repo_oid(1)), Some(0));
    assert_eq!(repo.index_of(&repo_oid(3)), Some(2));
    assert_eq!(repo.index_of(&repo_oid(9)), None);
    assert_eq!(repo.commit_at(1), &repo_commit(2, &[1]));
    assert_eq!(repo.find_commit(&repo_oid(3)), Some(&repo_commit(3, &[2, 9])));
}

#[test]
fn add_commit_refuses_a_known_id() {
    let mut repo = Repository::new();
    repo.add_commit(repo_commit(1, &[])).unwrap();
    assert_eq!(repo.add_commit(repo_commit(1, &[])), Err(Error::AlreadyExists));
    assert_eq!(repo.add_commit(repo_commit(1, &[5])), Err(Error::AlreadyExists));
    assert_eq!(repo.len(), 1);
}

#[test]
fn add_commit_refuses_a_commit_that_comes_after_its_child() {
    let mut repo = Repository::new();
    repo.add_commit(repo_commit(2, &[1])).unwrap();
    assert_eq!(repo.add_commit(repo_commit(1, &[])), Err(Error::OutOfOrder));
    assert_eq!(repo.add_commit(repo_commit(3, &[3])), Err(Error::OutOfOrder));
    assert_eq!(repo.len(), 1);
    assert_eq!(repo.add_commit(repo_commit(4, &[2])), Ok(()));
}

#[test]
fn apply_creates_updates_and_deletes() {
    let mut repo = Repository::new();
    assert_eq!(repo.apply(&repo_edit("refs/a", None, Some(1))), Ok(()));
    assert_eq!(repo.apply(&repo_edit("refs/b", None, Some(2))), Ok(()));
    assert_eq!(repo.apply(&repo_edit("refs/c", None, Some(3))), Ok(()));
    assert_eq!(repo.find_reference("refs/a"), Some(repo_oid(1)));
    assert_eq!(repo.apply(&repo_edit("refs/b", Some(2), Some(7))), Ok(()));
    assert_eq!(
        repo.references(),
        &vec![
            Reference { name: "refs/a".to_string(), target: repo_oid(1) },
            Reference { name: "refs/b".to_string(), target: repo_oid(7) },
            Reference { name: "refs/c".to_string(), target: repo_oid(3) },
        ]
    );
    assert_eq!(repo.apply(&repo_edit("refs/a", Some(1), None)), Ok(()));
    assert_eq!(
        repo.references(),
        &vec![
            Reference { name: "refs/b".to_string(), target: repo_oid(7) },
            Reference { name: "refs/c".to_string(), target: repo_oid(3) },
        ]
    );
    assert_eq!(repo.find_reference("refs/a"), None);
    assert_eq!(repo.apply(&repo_edit("refs/none", None, None)), Ok(()));
    assert_eq!(repo.references().len(), 2);
}

#[test]
fn apply_fails_when_the_reference_is_not_as_expected() {
    let mut repo = Repository::new();
    repo.apply(&repo_edit("refs/a", None, Some(1))).unwrap();
    assert_eq!(repo.apply(&repo_edit("refs/a", None, Some(2))), Err(Error::WriteConflict));
    assert_eq!(repo.apply(&repo_edit("refs/a", Some(3), Some(2))), Err(Error::WriteConflict));
    assert_eq!(repo.apply(&repo_edit("refs/a", Some(3), None)), Err(Error::WriteConflict));
    assert_eq!(repo.apply(&repo_edit("refs/b", Some(1), Some(2))), Err(Error::WriteConflict));
    assert_eq!(repo.apply(&repo_edit("refs/b", Some(1), None)), Err(Error::WriteConflict));
    assert_eq!(
        repo.references(),
        &vec![Reference { name: "refs/a".to_string(), target: repo_oid(1) }]
    );
}
