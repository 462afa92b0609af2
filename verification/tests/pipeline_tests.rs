use forum_threads::fileorder::{reorder_by_size, FolderEntry};
use forum_threads::pipeline::{execution_strategy, threads_from_posts, ExecutionStrategy};
use forum_threads::post::{JsonStruct, Post};
use forum_threads::processing::process;
use forum_threads::record::{decode_record, encode_record};
use forum_threads::text::{init_regex, TextConfig};

fn post(id: &str, is_thread: bool, pagetext: &str, parent: &str, root: &str) -> Post {
    Post::new(
        id.to_string(),
        is_thread,
        pagetext.to_string(),
        parent.to_string(),
        root.to_string(),
    )
}

#[test]
fn end_to_end_folder() {
    // one folder's records: a thread root, a reply, and a reply to an id
    // that never appears on its own
    let posts = vec![
        post("1", true, "A", "1", "1"),
        post("2", false, "B", "1", "1"),
        post("3", false, "C", "99", "99"),
    ];
    let mut threads = threads_from_posts(posts);
    threads.sort_by(|a, b| a.0.cmp(&b.0));

    assert_eq!(threads.len(), 2);
    assert_eq!(threads[0].0, "1");
    assert_eq!(threads[0].1, vec!["A", "B"]);
    assert_eq!(threads[1].0, "99");
    assert_eq!(threads[1].1, vec!["", "C"]);

    let cleaner = init_regex().unwrap();
    let cfg = TextConfig { cleaner, tokenizer: None };
    let first = process(&threads[0].0, &threads[0].1, "forum", &cfg).unwrap();
    assert_eq!(first.raw_content, "A\nB");
    assert_eq!(first.length, 2);
    let second = process(&threads[1].0, &threads[1].1, "forum", &cfg).unwrap();
    assert_eq!(second.raw_content, "\nC");
    assert_eq!(second.length, 1);

    let line = encode_record(&first);
    let back = decode_record(&line).unwrap();
    assert_eq!(back.raw_content, "A\nB");
    assert_eq!(back.thread_id, "1");
}

#[test]
fn from_json_struct_decodes_thread_mark() {
    let yes = JsonStruct::new(
        "5".to_string(),
        "Y".to_string(),
        "text".to_string(),
        "5".to_string(),
        "5".to_string(),
    );
    let p = Post::from_json_struct(yes).unwrap();
    assert!(p.is_thread);
    assert_eq!(p.id, "5");

    let no = JsonStruct::new(
        "6".to_string(),
        "N".to_string(),
        "text".to_string(),
        "5".to_string(),
        "5".to_string(),
    );
    let q = Post::from_json_struct(no).unwrap();
    assert!(!q.is_thread);
}

#[test]
fn placeholder_is_self_parented_and_empty() {
    let p = Post::placeholder("77".to_string());
    assert_eq!(p.id, "77");
    assert_eq!(p.parent_post_id, "77");
    assert_eq!(p.root_post_id, "77");
    assert_eq!(p.pagetext, "");
    assert!(p.is_thread);
}

#[test]
fn strategy_follows_threshold() {
    assert_eq!(execution_strategy(5, 10), ExecutionStrategy::Sequential);
    assert_eq!(execution_strategy(10, 10), ExecutionStrategy::Sequential);
    assert_eq!(execution_strategy(11, 10), ExecutionStrategy::Parallel);
}

#[test]
fn reorder_by_size_puts_largest_first() {
    let entries = vec![
        FolderEntry { size: 10, path: "small".to_string() },
        FolderEntry { size: 500, path: "large".to_string() },
        FolderEntry { size: 40, path: "medium".to_string() },
    ];
    let sorted = reorder_by_size(entries);
    let names: Vec<&str> = sorted.iter().map(|e| e.path.as_str()).collect();
    assert_eq!(names, vec!["large", "medium", "small"]);
    let sizes: Vec<u64> = sorted.iter().map(|e| e.size).collect();
    assert_eq!(sizes, vec![500, 40, 10]);
}
