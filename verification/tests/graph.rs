use libgitdit::graph::{
    graph_rows, into_tree_graph, rows, TreeGraph, TreeGraphElem, TreeGraphElemLine,
};
use libgitdit::oid::Oid;
use libgitdit::time::Time;
use libgitdit::repository::{Commit, Signature};

use libgitdit::graph::TreeGraphElem::{Branch, Empty, Merge, Node, Passing};

fn graph_signature(seconds: i64) -> Signature {
    Signature {
        name: "A U Thor".to_string(),
        email: "author@example.org".to_string(),
        time: Time { seconds, offset: 0 },
    }
}

fn graph_oid(n: u8) -> Oid {
    Oid { bytes: [n; 20] }
}

fn graph_commit(id: u8, parents: &[u8]) -> Commit {
    Commit {
        id: graph_oid(id),
        parents: parents.iter().map(|p| graph_oid(*p)).collect(),
        author: graph_signature(0),
        committer: graph_signature(0),
        tree: Oid { bytes: [0; 20] },
        message: String::new(),
    }
}

fn graph_cells(lines: &[TreeGraphElemLine]) -> Vec<Vec<TreeGraphElem>> {
    lines.iter().map(|l| l.elems.clone()).collect()
}

#[test]
fn tree_graph_of_a_chain_is_one_track() {
    let commits = vec![graph_commit(3, &[2]), graph_commit(2, &[1]), graph_commit(1, &[])];
    let refs: Vec<&Commit> = commits.iter().collect();
    let lines = into_tree_graph(&refs);
    assert_eq!(graph_cells(&lines), vec![vec![Node], vec![Node], vec![Node]]);
}

#[test]
fn tree_graph_of_nothing_is_empty() {
    assert_eq!(into_tree_graph(&vec![]), vec![]);
}

#[test]
fn tree_graph_with_branches_and_references() {
    // 7 replies to 5 and refers to 6; 4 replies to 2 and refers to 3;
    // 2 and 3 reply to 1
    let commits = vec![
        graph_commit(7, &[5, 6]),
        graph_commit(5, &[4]),
        graph_commit(4, &[2, 3]),
        graph_commit(3, &[1]),
        graph_commit(2, &[1]),
        graph_commit(1, &[]),
    ];
    let refs: Vec<&Commit> = commits.iter().collect();
    let lines = into_tree_graph(&refs);
    assert_eq!(
        graph_cells(&lines),
        vec![
            vec![Node],
            vec![Node, Passing],
            vec![Node, Passing],
            vec![Passing, Passing, Node],
            vec![Node, Passing, Passing],
            vec![Node, Passing, Merge],
        ]
    );
    let texts: Vec<String> = lines.iter().map(|l| l.to_string()).collect();
    assert_eq!(texts, vec!["*", "*|", "*|", "||*", "*||", "*|/"]);
}

#[test]
fn step_moves_the_tracks() {
    let mut graph = TreeGraph::new();
    let line = graph.step(&graph_oid(7), &vec![graph_oid(5), graph_oid(6), graph_oid(5)]);
    assert_eq!(line.elems, vec![Node]);
    assert_eq!(graph.tracks, vec![Some(graph_oid(5)), Some(graph_oid(6)), Some(graph_oid(5))]);
    let line = graph.step(&graph_oid(5), &vec![]);
    assert_eq!(line.elems, vec![Node, Passing, Merge]);
    assert_eq!(graph.tracks, vec![None, Some(graph_oid(6)), None]);
    // a message that no track waits for gets a new track at the right
    let line = graph.step(&graph_oid(9), &vec![graph_oid(8)]);
    assert_eq!(line.elems, vec![Empty, Passing, Empty, Node]);
    assert_eq!(graph.tracks, vec![None, Some(graph_oid(6)), None, Some(graph_oid(8))]);
    let line = graph.step(&graph_oid(6), &vec![graph_oid(8), graph_oid(1)]);
    assert_eq!(line.elems, vec![Empty, Node, Empty, Passing]);
    assert_eq!(
        graph.tracks,
        vec![None, Some(graph_oid(8)), None, Some(graph_oid(8)), Some(graph_oid(1))]
    );
    let line = graph.step(&graph_oid(8), &vec![graph_oid(1)]);
    assert_eq!(line.elems, vec![Empty, Node, Empty, Merge, Passing]);
    assert_eq!(graph.tracks, vec![None, Some(graph_oid(1)), None, None, Some(graph_oid(1))]);
}

#[test]
fn reverse_marks_swaps_branch_and_merge() {
    let mut line = TreeGraphElemLine { elems: vec![Node, Passing, Merge, Empty, Branch, Merge] };
    line.reverse_marks();
    assert_eq!(line.elems, vec![Node, Passing, Branch, Empty, Merge, Branch]);
    line.reverse_marks();
    assert_eq!(line.elems, vec![Node, Passing, Merge, Empty, Branch, Merge]);
    assert_eq!(Merge.reverse(), Branch);
    assert_eq!(Branch.reverse(), Merge);
    assert_eq!(Node.reverse(), Node);
    assert_eq!(Passing.reverse(), Passing);
    assert_eq!(Empty.reverse(), Empty);
}

#[test]
fn line_empty_append_and_text() {
    let mut line = TreeGraphElemLine::empty();
    assert_eq!(line.to_string(), "");
    line.append(Node);
    line.append(Passing);
    line.append(Branch);
    line.append(Merge);
    line.append(Empty);
    assert_eq!(line.elems, vec![Node, Passing, Branch, Merge, Empty]);
    assert_eq!(line.to_string(), "*|\\/ ");
    assert_eq!(Node.to_char(), '*');
    assert_eq!(Empty.to_char(), ' ');
}

#[test]
fn following_line_keeps_the_tracks_that_go_on() {
    let line = TreeGraphElemLine { elems: vec![Node, Passing, Merge, Empty, Branch] };
    assert_eq!(line.following().elems, vec![Passing, Passing, Empty, Empty, Passing]);
    assert_eq!(Node.following(), Passing);
    assert_eq!(Merge.following(), Empty);
}

#[test]
fn rows_put_the_text_behind_the_cells() {
    let line = TreeGraphElemLine { elems: vec![Passing, Node, Merge, Empty] };
    let texts = vec!["abc Subject".to_string(), "".to_string(), "Body".to_string()];
    assert_eq!(
        rows(&line, &texts),
        vec!["|*/  abc Subject".to_string(), "||   ".to_string(), "||   Body".to_string()]
    );
    assert_eq!(rows(&line, &vec![]), Vec::<String>::new());
}

#[test]
fn graph_rows_in_both_orders() {
    let lines = vec![
        TreeGraphElemLine { elems: vec![Node] },
        TreeGraphElemLine { elems: vec![Node, Passing] },
        TreeGraphElemLine { elems: vec![Node, Merge] },
    ];
    let texts = vec![
        vec!["c newest".to_string(), "more".to_string()],
        vec!["b".to_string()],
        vec!["a oldest".to_string()],
    ];
    assert_eq!(
        graph_rows(&lines, &texts, false),
        vec![
            "*  c newest".to_string(),
            "|  more".to_string(),
            "*|  b".to_string(),
            "*/  a oldest".to_string(),
        ]
    );
    assert_eq!(
        graph_rows(&lines, &texts, true),
        vec![
            "*\\  a oldest".to_string(),
            "*|  b".to_string(),
            "*  c newest".to_string(),
            "|  more".to_string(),
        ]
    );
    assert_eq!(graph_rows(&vec![], &vec![], true), Vec::<String>::new());
}
