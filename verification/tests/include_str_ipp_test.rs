use include_preprocessor::file_store::FileStore;
use include_preprocessor::preprocess;
use include_preprocessor::search_paths::SearchPaths;

fn bv(s: &str) -> Vec<u8> {
    s.as_bytes().to_vec()
}

fn add_plain_file(store: &mut FileStore, path: &str, content: &str) {
    store.add_file(bv(path), bv(path));
    store.add_content(bv(path), bv(content));
}

// The flow a compile-time string-inclusion front end drives: the entry
// document lies next to the requesting source file, the manifest
// directory serves as the one base path, and the flattened text comes
// back as one string while every consumed file is reported for
// dependency tracking.
#[test]
fn test_include_str_ipp() {
    let manifest_dir = "/proj";
    let source_dir = "/proj/tests";

    let mut store = FileStore::new();
    add_plain_file(
        &mut store,
        "/proj/tests/valid/a.txt",
        "Line A1\n#include \"b.txt\"\nLine A2\n#include <tests/valid/c.txt>\nLine A3\n",
    );
    add_plain_file(&mut store, "/proj/tests/valid/b.txt", "Line B1\n");
    add_plain_file(&mut store, "/proj/tests/valid/c.txt", "Line C1\n");

    let mut search_paths = SearchPaths::new();
    search_paths.push_base_path(bv(manifest_dir));

    let entry = format!("{}/valid/a.txt", source_dir);
    let mut tracker: Vec<(Vec<u8>, Vec<u8>)> = Vec::new();
    let actual = preprocess(
        &bv(&entry),
        search_paths,
        Vec::new(),
        &mut tracker,
        &store,
    )
    .unwrap();
    let expected = "Line A1\nLine B1\n\nLine A2\nLine C1\n\nLine A3\n";

    assert_eq!(actual, expected.as_bytes());
}
