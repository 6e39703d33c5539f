use libgitdit::oid::Oid;
use libgitdit::priorization::RemotePriorization;
use libgitdit::reference::Reference;

const PRIO_ISSUE: &str = "0101010101010101010101010101010101010101";

fn prio_ref(name: String, target: u8) -> Reference {
    Reference { name, target: Oid { bytes: [target; 20] } }
}

fn prio_remote_head(remote: &str, target: u8) -> Reference {
    prio_ref(format!("refs/remotes/{}/dit/{}/head", remote, PRIO_ISSUE), target)
}

fn prio_local_head(target: u8) -> Reference {
    prio_ref(format!("refs/dit/{}/head", PRIO_ISSUE), target)
}

fn prio_list(names: &[&str]) -> RemotePriorization {
    RemotePriorization::new(names.iter().map(|n| n.to_string()).collect())
}

#[test]
fn remote_prioritization_picks_the_first_listed_remote() {
    let prios = prio_list(&["upstream", "origin"]);
    let candidates = vec![
        prio_remote_head("origin", 1),
        prio_remote_head("upstream", 2),
        prio_remote_head("fork", 3),
    ];
    assert_eq!(prios.select_ref(&candidates), Some(&candidates[1]));
    assert_eq!(prios.select_index(&candidates), Some(1));
}

#[test]
fn select_ref_of_nothing_is_none() {
    let prios = prio_list(&["origin"]);
    assert_eq!(prios.select_ref(&vec![]), None);
    assert_eq!(prios.select_index(&vec![]), None);
}

#[test]
fn local_wins_over_every_remote() {
    let prios = prio_list(&["origin"]);
    let candidates = vec![prio_remote_head("origin", 1), prio_local_head(2), prio_remote_head("a", 3)];
    assert_eq!(prios.select_index(&candidates), Some(1));
}

#[test]
fn unlisted_remotes_come_after_listed_ones() {
    let prios = prio_list(&["zzz"]);
    let candidates = vec![prio_remote_head("aaa", 1), prio_remote_head("zzz", 2)];
    assert_eq!(prios.select_index(&candidates), Some(1));
}

#[test]
fn ties_are_broken_by_name() {
    let prios = prio_list(&[]);
    let candidates = vec![
        prio_remote_head("delta", 1),
        prio_remote_head("beta", 2),
        prio_remote_head("gamma", 3),
        prio_remote_head("beta", 4),
    ];
    // none is listed: the name decides, and of two equal names the first
    assert_eq!(prios.select_index(&candidates), Some(1));
}

#[test]
fn select_ref_agrees_with_sorting() {
    let prios = prio_list(&["b", "d"]);
    let remotes = ["a", "b", "c", "d", "e"];
    for mask in 1u32..32 {
        let mut candidates = Vec::new();
        for (k, r) in remotes.iter().enumerate() {
            if mask & (1 << k) != 0 {
                candidates.push(prio_remote_head(r, k as u8));
            }
        }
        if mask % 3 == 0 {
            candidates.push(prio_local_head(9));
        }
        let mut keyed: Vec<(u8, usize, String, usize)> = candidates
            .iter()
            .enumerate()
            .map(|(i, c)| {
                let parts: Vec<&str> = c.name.split('/').collect();
                if parts[1] == "remotes" {
                    let idx = ["b", "d"].iter().position(|x| *x == parts[2]).unwrap_or(usize::MAX);
                    (1u8, idx, c.name.clone(), i)
                } else {
                    (0u8, 0, c.name.clone(), i)
                }
            })
            .collect();
        keyed.sort();
        assert_eq!(prios.select_index(&candidates), Some(keyed[0].3));
    }
}

#[test]
fn prefers_orders_by_rank_and_name() {
    let prios = prio_list(&["one", "two"]);
    let local = format!("refs/dit/{}/head", PRIO_ISSUE);
    let one = format!("refs/remotes/one/dit/{}/head", PRIO_ISSUE);
    let two = format!("refs/remotes/two/dit/{}/head", PRIO_ISSUE);
    let other = format!("refs/remotes/other/dit/{}/head", PRIO_ISSUE);
    assert!(prios.prefers(&local, &one));
    assert!(!prios.prefers(&one, &local));
    assert!(prios.prefers(&one, &two));
    assert!(!prios.prefers(&two, &one));
    assert!(prios.prefers(&two, &other));
    assert!(!prios.prefers(&other, &two));
    assert!(prios.prefers(&one, &one));
    assert_eq!(prios.place_of(&local), None);
    assert_eq!(prios.place_of(&one), Some(0));
    assert_eq!(prios.place_of(&two), Some(1));
    assert_eq!(prios.place_of(&other), Some(2));
}

#[test]
fn priorization_from_a_list_of_names() {
    assert_eq!(RemotePriorization::from_list("origin").remotes, vec!["origin".to_string()]);
    assert_eq!(
        RemotePriorization::from_list("upstream,origin").remotes,
        vec!["upstream".to_string(), "origin".to_string()]
    );
    assert_eq!(RemotePriorization::from_list("").remotes, vec![String::new()]);
}
