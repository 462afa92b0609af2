use forum_threads::graph::ThreadGraph;
use forum_threads::pipeline::threads_from_posts;
use forum_threads::post::Post;
use rand::seq::SliceRandom;

fn post(id: &str, is_thread: bool, pagetext: &str, parent: &str, root: &str) -> Post {
    Post::new(
        id.to_string(),
        is_thread,
        pagetext.to_string(),
        parent.to_string(),
        root.to_string(),
    )
}

fn setup() -> (ThreadGraph, Vec<Post>) {
    let test_cases = vec![
        // first graph, basic 1>2&3
        ("1", true, "1", "1", "1"),
        ("2", true, "2", "2", "2"),
        ("3", false, "3", "1", "1"),
        ("4", false, "4", "3", "3"),
        ("5", false, "5", "3", "3"),
        ("6", false, "6", "4", "4"),
        ("7", false, "7", "2", "2"),
        ("8", false, "8", "7", "7"),
        ("9", false, "9", "7", "7"),
        ("10", false, "10", "8", "8"),
        // detached thread
        ("11", false, "11", "12", "12"),
    ];

    let graph = ThreadGraph::new();
    let posts = test_cases
        .into_iter()
        .map(|(id, is_thread, pagetext, parent_post_id, root_post_id)| {
            post(id, is_thread, pagetext, parent_post_id, root_post_id)
        })
        .collect();
    (graph, posts)
}

#[test]
fn test_functional_graph() {
    let mut target: Vec<(&str, Vec<&str>)> = vec![
        ("2", vec!["2", "7", "9", "8", "10"]),
        ("1", vec!["1", "3", "5", "4", "6"]),
        ("12", vec!["", "11"]),
    ];
    let mut alternative_target: Vec<(&str, Vec<&str>)> = vec![
        ("2", vec!["2", "7", "8", "10", "9"]),
        ("1", vec!["1", "3", "4", "6", "5"]),
        ("12", vec!["11", ""]),
    ];
    // sort target
    target.sort_by(|a, b| a.0.cmp(b.0));
    alternative_target.sort_by(|a, b| a.0.cmp(b.0));

    // run a loop for better determinism
    for _ in 0..10 {
        let (mut graph, mut posts) = setup();
        posts.shuffle(&mut rand::rng());
        for post in posts.iter() {
            graph.add_post(post.clone());
        }

        assert_eq!(graph.node_count(), 12);
        assert_eq!(graph.edge_count(), 9);

        let mut threads = graph.traverse();
        threads.sort_by(|a, b| a.0.cmp(&b.0));

        assert_eq!(threads.len(), target.len());

        // check against target and alternative target
        for idx in 0..threads.len() {
            let result = &threads[idx];
            let x = &target[idx];
            let y = &alternative_target[idx];
            assert_eq!(result.0, x.0);
            assert!(result.1 == x.1 || result.1 == y.1);
        }
    }
}

#[test]
fn insertion_order_gives_same_forest() {
    let make = || {
        vec![
            post("a", true, "root text", "a", "a"),
            post("b", false, "child one", "a", "a"),
            post("c", false, "child two", "a", "a"),
            post("d", false, "grandchild", "b", "a"),
            post("e", false, "lost", "zz", "zz"),
        ]
    };
    let forward = make();
    let mut backward = make();
    backward.reverse();

    let mut t1 = threads_from_posts(forward);
    let mut t2 = threads_from_posts(backward);
    t1.sort_by(|a, b| a.0.cmp(&b.0));
    t2.sort_by(|a, b| a.0.cmp(&b.0));

    assert_eq!(t1.len(), t2.len());
    for idx in 0..t1.len() {
        assert_eq!(t1[idx].0, t2[idx].0);
        let mut s1 = t1[idx].1.clone();
        let mut s2 = t2[idx].1.clone();
        s1.sort();
        s2.sort();
        assert_eq!(s1, s2);
    }
}

#[test]
fn reinserted_id_keeps_one_node_and_last_payload() {
    let mut graph = ThreadGraph::new();
    graph.add_post(post("1", true, "first draft", "1", "1"));
    assert_eq!(graph.node_count(), 1);
    graph.add_post(post("1", true, "final text", "1", "1"));
    assert_eq!(graph.node_count(), 1);
    let threads = graph.traverse();
    assert_eq!(threads.len(), 1);
    assert_eq!(threads[0].0, "1");
    assert_eq!(threads[0].1, vec!["final text"]);
}

#[test]
fn missing_parent_becomes_placeholder_root() {
    let mut graph = ThreadGraph::new();
    graph.add_post(post("c", false, "C", "p", "p"));
    assert_eq!(graph.node_count(), 2);
    let threads = graph.traverse();
    assert_eq!(threads.len(), 1);
    assert_eq!(threads[0].0, "p");
    assert_eq!(threads[0].1, vec!["", "C"]);
}

#[test]
fn show_roots_reports_in_degree_zero() {
    let mut graph = ThreadGraph::new();
    graph.add_post(post("1", true, "A", "1", "1"));
    graph.add_post(post("2", false, "B", "1", "1"));
    // node order: "1" first (parent and id), then "2"
    assert_eq!(graph.show_roots(), vec![0]);
}

#[test]
fn show_roots_may_disagree_with_tracked_roots() {
    let mut graph = ThreadGraph::new();
    graph.add_post(post("1", true, "A", "1", "1"));
    // marked as a thread start, yet carrying an incoming edge
    graph.add_post(post("2", true, "B", "1", "1"));
    assert_eq!(graph.show_roots(), vec![0]);
    let mut threads = graph.traverse();
    threads.sort_by(|a, b| a.0.cmp(&b.0));
    // traversal goes by the tracked roots: both nodes start a thread
    assert_eq!(threads.len(), 2);
    assert_eq!(threads[0].0, "1");
    assert_eq!(threads[1].0, "2");
}

#[test]
fn is_in_map_tracks_every_seen_id() {
    let mut graph = ThreadGraph::new();
    assert!(!graph.is_in_map(&"1".to_string()));
    graph.add_post(post("2", false, "B", "1", "1"));
    assert!(graph.is_in_map(&"1".to_string()));
    assert!(graph.is_in_map(&"2".to_string()));
    assert!(!graph.is_in_map(&"3".to_string()));
}

#[test]
fn traverse_clears_state_for_reuse() {
    let mut graph = ThreadGraph::new();
    graph.add_post(post("1", true, "A", "1", "1"));
    let threads = graph.traverse();
    assert_eq!(threads.len(), 1);
    assert_eq!(graph.node_count(), 0);
    assert_eq!(graph.edge_count(), 0);
    assert_eq!(graph.traverse().len(), 0);
}
