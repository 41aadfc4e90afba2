use nya::paths::{dir_path, file_name, is_below, join_path, relative_path};
use nya::{
    create_middleware, ignore, plan_writes, run_middleware, run_pipeline, Ignore, Metadata,
    Middleware, PipelineError, RunConfig, SimpleFile,
};

fn entity(rel: &str, content: &str) -> SimpleFile {
    let path = format!("src/{}", rel);
    SimpleFile::from_walk("src", &path, content.to_string(), format!("/home/{}", path)).unwrap()
}

struct SetContent(usize, &'static str);

impl Middleware for SetContent {
    fn apply(&mut self, files: &mut Vec<SimpleFile>) {
        files[self.0].content = self.1.to_string();
    }
}

struct StoreKey;

impl Middleware for StoreKey {
    fn apply(&mut self, files: &mut Vec<SimpleFile>) {
        files[0].metadata.insert("k".to_string(), "v".to_string());
    }
}

#[test]
fn metadata_starts_empty() {
    let m = Metadata::new();
    assert!(!m.contains_key(&"k".to_string()));
    assert_eq!(m.get(&"k".to_string()), None);
}

#[test]
fn metadata_round_trip() {
    let mut m = Metadata::new();
    m.insert("k".to_string(), "v".to_string());
    m.insert("other".to_string(), "w".to_string());
    assert_eq!(m.get(&"k".to_string()), Some(&"v".to_string()));
    assert_eq!(m.get(&"other".to_string()), Some(&"w".to_string()));
    assert!(m.contains_key(&"k".to_string()));
}

#[test]
fn metadata_overwrite_keeps_last_value() {
    let mut m = Metadata::new();
    m.insert("k".to_string(), "first".to_string());
    m.insert("k".to_string(), "second".to_string());
    assert_eq!(m.get(&"k".to_string()), Some(&"second".to_string()));
}

#[test]
fn relative_path_under_root() {
    assert_eq!(relative_path(".", "./a.md"), Some("a.md".to_string()));
    assert_eq!(relative_path("fixtures/site", "fixtures/site/x/y.md"), Some("x/y.md".to_string()));
    assert_eq!(relative_path("fixtures/site/", "fixtures/site/y.md"), Some("y.md".to_string()));
    assert_eq!(relative_path("", "a.md"), Some("a.md".to_string()));
}

#[test]
fn relative_path_outside_root() {
    assert_eq!(relative_path("fixtures/site", "fixtures/site"), None);
    assert_eq!(relative_path("fixtures/site", "fixtures/sitemap.md"), None);
    assert_eq!(relative_path("fixtures/site", "other/a.md"), None);
    assert_eq!(relative_path("fixtures/site", "fixtures/site/"), None);
}

#[test]
fn file_name_is_last_component() {
    assert_eq!(file_name("a/b/c.md"), "c.md".to_string());
    assert_eq!(file_name("c.md"), "c.md".to_string());
    assert_eq!(file_name("a/"), "".to_string());
}

#[test]
fn join_and_dir() {
    assert_eq!(join_path("_site", "a/b.md"), "_site/a/b.md".to_string());
    assert_eq!(join_path("_site/", "b.md"), "_site/b.md".to_string());
    assert_eq!(join_path("", "b.md"), "b.md".to_string());
    assert_eq!(dir_path("_site", "a/b/c.md"), "_site/a/b".to_string());
    assert_eq!(dir_path("_site", "c.md"), "_site".to_string());
}

#[test]
fn below_checks() {
    assert!(is_below("a.md"));
    assert!(is_below("a/..b/c"));
    assert!(is_below("..a"));
    assert!(is_below("x"));
    assert!(!is_below(""));
    assert!(!is_below("/etc/passwd"));
    assert!(!is_below("../x"));
    assert!(!is_below("a/../../b"));
    assert!(!is_below("a/.."));
    assert!(!is_below(".."));
}

#[test]
fn from_walk_fills_entity() {
    let f = SimpleFile::from_walk("site", "site/blog/post.md", "hi".to_string(), "/abs/site/blog/post.md".to_string())
        .unwrap();
    assert_eq!(f.name, "post.md".to_string());
    assert_eq!(f.rel_path, "blog/post.md".to_string());
    assert_eq!(f.content, "hi".to_string());
    assert_eq!(f.abs_path, "/abs/site/blog/post.md".to_string());
    assert!(!f.metadata.contains_key(&"k".to_string()));
}

#[test]
fn from_walk_outside_root_fails() {
    let r = SimpleFile::from_walk("site", "elsewhere/a.md", "hi".to_string(), "/a".to_string());
    match r {
        Err(PipelineError::PathConsistency { path }) => assert_eq!(path, "elsewhere/a.md".to_string()),
        _ => panic!("expected a path error"),
    }
}

#[test]
fn plan_rejects_escaping_path() {
    let mut files = vec![entity("a.md", "x"), entity("b.md", "y")];
    files[1].rel_path = "../b.md".to_string();
    match plan_writes(&files, "_site") {
        Err(PipelineError::PathConsistency { path }) => assert_eq!(path, "../b.md".to_string()),
        _ => panic!("expected a path error"),
    }
}

#[test]
fn plan_nested_paths() {
    let files = vec![entity("a.md", "x"), entity("posts/2020/b.md", "y")];
    let ops = plan_writes(&files, "out").unwrap();
    assert_eq!(ops.len(), 2);
    assert_eq!(ops[0].path, "out/a.md".to_string());
    assert_eq!(ops[0].dir, "out".to_string());
    assert_eq!(ops[0].content, "x".to_string());
    assert_eq!(ops[1].path, "out/posts/2020/b.md".to_string());
    assert_eq!(ops[1].dir, "out/posts/2020".to_string());
    assert_eq!(ops[1].content, "y".to_string());
}

#[test]
fn empty_chain_copies_everything() {
    let mut files = vec![entity("a.md", "hello"), entity("d/b.txt", "world")];
    let ops = run_pipeline(Vec::<Ignore>::new(), &mut files, "_site").unwrap();
    assert_eq!(files.len(), 2);
    assert_eq!(ops.len(), 2);
    assert_eq!(ops[0].path, "_site/a.md".to_string());
    assert_eq!(ops[0].content, "hello".to_string());
    assert_eq!(ops[1].path, "_site/d/b.txt".to_string());
    assert_eq!(ops[1].content, "world".to_string());
}

#[test]
fn last_writer_wins() {
    let mut files = vec![entity("a.md", "start")];
    run_middleware(vec![SetContent(0, "a"), SetContent(0, "b")], &mut files);
    assert_eq!(files[0].content, "b".to_string());
}

#[test]
fn ignore_removes_exactly_matches() {
    let mut files = vec![
        entity("one.txt", "1"),
        entity("keep.md", "2"),
        entity("two.txt", "3"),
        entity("sub/three.txt", "4"),
        entity("txt.rs", "5"),
    ];
    let mut filter = ignore(vec!["*.txt"]).unwrap();
    filter.apply(&mut files);
    assert_eq!(files.len(), 2);
    assert_eq!(files[0].rel_path, "keep.md".to_string());
    assert_eq!(files[1].rel_path, "txt.rs".to_string());
}

#[test]
fn ignore_pattern_order_does_not_matter() {
    let make = || vec![entity("a.txt", "1"), entity("b.md", "2"), entity("c.rs", "3")];
    let mut first = make();
    let mut second = make();
    ignore(vec!["*.txt", "*.rs"]).unwrap().apply(&mut first);
    ignore(vec!["*.rs", "*.txt", "*.rs"]).unwrap().apply(&mut second);
    assert_eq!(first.len(), 1);
    assert_eq!(second.len(), 1);
    assert_eq!(first[0].rel_path, second[0].rel_path);
    assert_eq!(first[0].rel_path, "b.md".to_string());
}

#[test]
fn ignore_with_no_patterns_keeps_all() {
    let mut files = vec![entity("a.txt", "1"), entity("b.md", "2")];
    ignore(vec![]).unwrap().apply(&mut files);
    assert_eq!(files.len(), 2);
}

#[test]
fn ignore_invalid_pattern_fails() {
    match ignore(vec!["*.md", "a[", "b{"]) {
        Err(PipelineError::Pattern { pattern }) => assert_eq!(pattern, "a[".to_string()),
        _ => panic!("expected a pattern error"),
    }
}

#[test]
fn is_ignored_matches_globs() {
    let filter = ignore(vec!["*.txt", "node_modules/**"]).unwrap();
    assert!(filter.is_ignored("b.txt"));
    assert!(filter.is_ignored("deep/dir/b.txt"));
    assert!(filter.is_ignored("node_modules/x/y.js"));
    assert!(!filter.is_ignored("a.md"));
    assert!(!filter.is_ignored("txt"));
}

#[test]
fn end_to_end_ignore_txt() {
    let mut files = vec![entity("a.md", "hello"), entity("b.txt", "world")];
    let chain = vec![ignore(vec!["*.txt"]).unwrap()];
    let ops = run_pipeline(chain, &mut files, "_site").unwrap();
    assert_eq!(files.len(), 1);
    assert_eq!(files[0].name, "a.md".to_string());
    assert_eq!(ops.len(), 1);
    assert_eq!(ops[0].path, "_site/a.md".to_string());
    assert_eq!(ops[0].content, "hello".to_string());
}

#[test]
fn metadata_does_not_reach_disk() {
    let mut files = vec![entity("a.md", "body")];
    let ops = run_pipeline(vec![StoreKey], &mut files, "_site").unwrap();
    assert_eq!(files[0].metadata.get(&"k".to_string()), Some(&"v".to_string()));
    assert_eq!(ops.len(), 1);
    assert_eq!(ops[0].content, "body".to_string());
    assert!(!ops[0].path.contains('v'));
    assert!(!ops[0].dir.contains('v'));
}

#[test]
fn run_config_defaults() {
    let c = RunConfig::resolve(None, None);
    assert_eq!(c.source, ".".to_string());
    assert_eq!(c.destination, "_site".to_string());
    let c = RunConfig::resolve(Some("src_dir"), Some("out"));
    assert_eq!(c.source, "src_dir".to_string());
    assert_eq!(c.destination, "out".to_string());
}

#[test]
fn create_middleware_boxes_value() {
    let b = create_middleware(SetContent(0, "z"));
    let mut files = vec![entity("a.md", "start")];
    run_middleware(vec![*b], &mut files);
    assert_eq!(files[0].content, "z".to_string());
}

#[test]
fn filter_twice_is_filter_once() {
    let mut files = vec![entity("a.txt", "1"), entity("b.md", "2"), entity("c.txt", "3")];
    let filter = ignore(vec!["*.txt"]).unwrap();
    filter.filter(&mut files);
    assert_eq!(files.len(), 1);
    filter.filter(&mut files);
    assert_eq!(files.len(), 1);
    assert_eq!(files[0].rel_path, "b.md".to_string());
}

#[test]
fn union_of_patterns_is_sequence() {
    let make = || vec![entity("a.txt", "1"), entity("b.md", "2"), entity("c.rs", "3")];
    let mut together = make();
    let mut in_turn = make();
    ignore(vec!["*.txt", "*.rs"]).unwrap().filter(&mut together);
    ignore(vec!["*.txt"]).unwrap().filter(&mut in_turn);
    ignore(vec!["*.rs"]).unwrap().filter(&mut in_turn);
    assert_eq!(together.len(), 1);
    assert_eq!(in_turn.len(), 1);
    assert_eq!(together[0].rel_path, in_turn[0].rel_path);
}

#[test]
fn from_walk_refuses_escaping_remainder() {
    let doubled = SimpleFile::from_walk("site", "site//a.md", "x".to_string(), "/a".to_string());
    assert!(matches!(doubled, Err(PipelineError::PathConsistency { .. })));
    let climbing = SimpleFile::from_walk("site", "site/../a.md", "x".to_string(), "/a".to_string());
    assert!(matches!(climbing, Err(PipelineError::PathConsistency { .. })));
}
