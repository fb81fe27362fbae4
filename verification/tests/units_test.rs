use include_preprocessor::errors::Error;
use include_preprocessor::file_store::FileStore;
use include_preprocessor::graph::{Loader, Parsed};
use include_preprocessor::line_parser::IncludePath;
use include_preprocessor::node::{NodeChunk, ParsedNode};
use include_preprocessor::resolve::try_resolve_include_path;
use include_preprocessor::search_paths::{
    angle_candidates, parent_dir, path_join, quote_candidates, SearchPaths,
};
use include_preprocessor::writer::SourceMappedChunk;

fn bv(s: &str) -> Vec<u8> {
    s.as_bytes().to_vec()
}

fn add_plain_file(store: &mut FileStore, path: &str, content: &str) {
    store.add_file(bv(path), bv(path));
    store.add_content(bv(path), bv(content));
}

#[test]
fn test_search_paths_accessors() {
    let mut sp = SearchPaths::new();
    sp.push_base_path(bv("/base1"));
    sp.push_base_path(bv("/base2"));
    sp.push_quoted_path(bv("/q1"));

    assert_eq!(sp.base_paths(), &vec![bv("/base1"), bv("/base2")]);
    // quoted lookups fall back to the quoted paths and then the base paths
    assert_eq!(
        sp.quoted_paths(),
        vec![bv("/q1"), bv("/base1"), bv("/base2")]
    );
}

#[test]
fn test_path_helpers() {
    assert_eq!(path_join(&bv("/a/b"), &bv("c.txt")), bv("/a/b/c.txt"));
    assert_eq!(path_join(&bv("/a/b/"), &bv("c.txt")), bv("/a/b/c.txt"));
    assert_eq!(path_join(&bv(""), &bv("c.txt")), bv("c.txt"));
    assert_eq!(path_join(&bv("/a"), &bv("/abs.txt")), bv("/abs.txt"));
    assert_eq!(parent_dir(&bv("/a/b/c.txt")), bv("/a/b"));
    assert_eq!(parent_dir(&bv("/c.txt")), bv("/"));
    assert_eq!(parent_dir(&bv("c.txt")), bv(""));
}

#[test]
fn test_candidate_order() {
    let mut sp = SearchPaths::new();
    sp.push_base_path(bv("/base"));
    sp.push_quoted_path(bv("/q"));

    assert_eq!(
        angle_candidates(&sp, &bv("t.txt")),
        vec![bv("/base/t.txt")]
    );
    assert_eq!(
        quote_candidates(&sp, &bv("/d/from.txt"), &bv("t.txt")),
        vec![bv("/d/t.txt"), bv("/q/t.txt"), bv("/base/t.txt")]
    );
}

#[test]
fn test_try_resolve_include_path() {
    let mut store = FileStore::new();
    add_plain_file(&mut store, "/q/t.txt", "x");
    let mut sp = SearchPaths::new();
    sp.push_quoted_path(bv("/q"));

    let from = bv("/d/from.txt");
    let src = bv("#include \"t.txt\"\n");
    let resolved = try_resolve_include_path(
        &IncludePath::Quote(bv("t.txt")),
        (&from, &src, 0),
        &sp,
        &store,
    )
    .unwrap();
    assert_eq!(resolved, bv("/q/t.txt"));

    let missing = try_resolve_include_path(
        &IncludePath::Angle(bv("t.txt")),
        (&from, &src, 7),
        &sp,
        &store,
    );
    match missing {
        Err(Error::FileNotFound(e)) => {
            assert_eq!(e.included_path(), &bv("t.txt"));
            assert_eq!(e.source_file(), &from);
            assert_eq!(e.line_number(), 7);
        }
        _ => panic!("expected a not-found failure"),
    }
}

#[test]
fn test_parsed_node_accessors() {
    let mut store = FileStore::new();
    add_plain_file(&mut store, "/d/b.txt", "inner");
    add_plain_file(
        &mut store,
        "/d/a.txt",
        "head\n#pragma once\n#include \"b.txt\"\ntail\n",
    );
    let sp = SearchPaths::new();

    let node = ParsedNode::try_parse(bv("/d/a.txt"), &sp, &store).unwrap();
    assert_eq!(node.path(), &bv("/d/a.txt"));
    assert_eq!(node.key(), &bv("/d/a.txt"));
    assert_eq!(
        node.source(),
        &bv("head\n#pragma once\n#include \"b.txt\"\ntail\n")
    );
    assert!(node.once());
    assert_eq!(node.chunk_count(), 3);

    let chunks = node.chunks();
    assert_eq!(chunks.len(), 3);
    match &chunks[0] {
        NodeChunk::Text(tc) => {
            assert_eq!(tc.text(), "head\n".as_bytes());
            assert_eq!(tc.byte_range(), (0, 5));
        }
        _ => panic!("expected a text chunk"),
    }
    match &chunks[1] {
        NodeChunk::Include(p) => {
            assert_eq!(*p, &bv("/d/b.txt"));
        }
        _ => panic!("expected a resolved include chunk"),
    }
    match node.get_chunk(2) {
        Some(NodeChunk::Text(tc)) => {
            assert_eq!(tc.text(), "tail\n".as_bytes());
        }
        _ => panic!("expected a text chunk"),
    }
    assert!(node.get_chunk(3).is_none());
}

#[test]
fn test_loader_steps() {
    let mut store = FileStore::new();
    add_plain_file(&mut store, "/d/a.txt", "#include \"b.txt\"\n");
    add_plain_file(&mut store, "/d/b.txt", "B\n");
    let sp = SearchPaths::new();

    let mut loader = Loader::new(bv("/d/a.txt"));
    assert_eq!(loader.balance(), 1);
    assert!(loader.is_pending(&bv("/d/a.txt")));
    assert_eq!(loader.root_key(), &bv("/d/a.txt"));

    let a = ParsedNode::try_parse(bv("/d/a.txt"), &sp, &store).unwrap();
    let news = loader.on_parsed(a);
    assert_eq!(news, vec![bv("/d/b.txt")]);
    assert_eq!(loader.balance(), 1);
    assert!(loader.is_pending(&bv("/d/b.txt")));
    assert!(!loader.is_pending(&bv("/d/a.txt")));

    let b = ParsedNode::try_parse(bv("/d/b.txt"), &sp, &store).unwrap();
    let news = loader.on_parsed(b);
    assert!(news.is_empty());
    assert_eq!(loader.balance(), 0);

    let parsed = loader.finish();
    let nb = parsed.get_by_key(&bv("/d/b.txt")).unwrap();
    assert_eq!(nb.source(), &bv("B\n"));
    assert!(parsed.get_by_path(&bv("/d/b.txt")).is_some());
    assert!(parsed.get_by_key(&bv("/d/zzz.txt")).is_none());
}

#[test]
fn test_parsed_write_direct() {
    let mut store = FileStore::new();
    add_plain_file(&mut store, "/d/a.txt", "one\n#include \"b.txt\"\ntwo\n");
    add_plain_file(&mut store, "/d/b.txt", "mid");
    let sp = SearchPaths::new();

    let parsed = Parsed::try_init(&bv("/d/a.txt"), &sp, &store).unwrap();
    let mut out: Vec<u8> = Vec::new();
    let mut tracker: Vec<(Vec<u8>, Vec<u8>)> = Vec::new();
    parsed.write(&mut out, &mut tracker).unwrap();
    assert_eq!(out, bv("one\nmid\ntwo\n"));
    assert_eq!(tracker.len(), 2);
    assert!(tracker.contains(&(bv("/d/b.txt"), bv("mid"))));
}

#[test]
fn test_load_state_loaded() {
    let mut store = FileStore::new();
    add_plain_file(&mut store, "/d/a.txt", "text\n");
    let sp = SearchPaths::new();
    let parsed = Parsed::try_init(&bv("/d/a.txt"), &sp, &store).unwrap();
    // a loaded graph answers with nodes, never with pending states
    assert!(parsed.get_by_key(&bv("/d/a.txt")).is_some());
}

#[test]
fn test_source_mapped_chunk_accessors() {
    let path = bv("/d/a.txt");
    let text = "abc".as_bytes();
    let chunk = SourceMappedChunk {
        text,
        source_path: &path,
        source_range: (4, 7),
    };
    assert_eq!(chunk.text(), "abc".as_bytes());
    assert_eq!(chunk.source_path(), &path);
    assert_eq!(chunk.source_range(), (4, 7));
}

#[test]
fn test_file_store_lookups() {
    let mut store = FileStore::new();
    store.add_file(bv("/probe/x"), bv("/real/x"));
    store.add_content(bv("/real/x"), bv("data"));
    assert_eq!(store.canon_of(&bv("/probe/x")), Some(&bv("/real/x")));
    assert_eq!(store.canon_of(&bv("/probe/y")), None);
    assert_eq!(store.content_of(&bv("/real/x")), Some(&bv("data")));
    assert_eq!(store.content_of(&bv("/probe/x")), None);
}
