use include_preprocessor::errors::Error;
use include_preprocessor::file_store::FileStore;
use include_preprocessor::preprocess;
use include_preprocessor::search_paths::SearchPaths;

fn bv(s: &str) -> Vec<u8> {
    s.as_bytes().to_vec()
}

/// Records a file that exists at `path`, canonical under the same name,
/// holding `content`.
fn add_plain_file(store: &mut FileStore, path: &str, content: &str) {
    store.add_file(bv(path), bv(path));
    store.add_content(bv(path), bv(content));
}

fn run(
    entry: &str,
    search_paths: SearchPaths,
    store: &FileStore,
) -> (Result<Vec<u8>, Error>, Vec<(Vec<u8>, Vec<u8>)>) {
    let mut tracker: Vec<(Vec<u8>, Vec<u8>)> = Vec::new();
    let out = preprocess(&bv(entry), search_paths, Vec::new(), &mut tracker, store);
    (out, tracker)
}

#[test]
fn test_preprocess_valid() {
    let mut store = FileStore::new();
    add_plain_file(
        &mut store,
        "/proj/tests/valid/a.txt",
        "Line A1\n#include \"b.txt\"\nLine A2\n#include <tests/valid/c.txt>\nLine A3\n",
    );
    add_plain_file(&mut store, "/proj/tests/valid/b.txt", "Line B1\n");
    add_plain_file(&mut store, "/proj/tests/valid/c.txt", "Line C1\n");

    let mut search_paths = SearchPaths::new();
    search_paths.push_base_path(bv("/proj"));

    let (res, tracker) = run("/proj/tests/valid/a.txt", search_paths, &store);
    let actual = res.unwrap();
    let expected = "Line A1\nLine B1\n\nLine A2\nLine C1\n\nLine A3\n";

    assert_eq!(actual, expected.as_bytes());

    let paths_seen: Vec<&[u8]> = tracker.iter().map(|p| p.0.as_slice()).collect();
    assert!(paths_seen.contains(&"/proj/tests/valid/a.txt".as_bytes()));
    assert!(paths_seen.contains(&"/proj/tests/valid/b.txt".as_bytes()));
    assert!(paths_seen.contains(&"/proj/tests/valid/c.txt".as_bytes()));
    assert_eq!(tracker.len(), 3);
}

#[test]
fn test_newline_insertion() {
    // An included file without a trailing newline still ends its line in
    // the output: one newline is inserted when control returns.
    let mut store = FileStore::new();
    add_plain_file(&mut store, "/d/a.txt", "pre\n#include \"b.txt\"\npost\n");
    add_plain_file(&mut store, "/d/b.txt", "INNER");

    let (res, _) = run("/d/a.txt", SearchPaths::new(), &store);
    assert_eq!(res.unwrap(), "pre\nINNER\npost\n".as_bytes());
}

#[test]
fn test_order_preservation() {
    // A file with no directives is reproduced byte for byte.
    let text = "alpha\nbeta\n\ngamma";
    let mut store = FileStore::new();
    add_plain_file(&mut store, "/d/plain.txt", text);

    let (res, _) = run("/d/plain.txt", SearchPaths::new(), &store);
    assert_eq!(res.unwrap(), text.as_bytes());
}

#[test]
fn test_preprocess_deterministic() {
    let mut store = FileStore::new();
    add_plain_file(&mut store, "/d/a.txt", "x\n#include \"b.txt\"\ny\n");
    add_plain_file(&mut store, "/d/b.txt", "inner\n");

    let (r1, t1) = run("/d/a.txt", SearchPaths::new(), &store);
    let (r2, t2) = run("/d/a.txt", SearchPaths::new(), &store);
    assert_eq!(r1.unwrap(), r2.unwrap());
    assert_eq!(t1, t2);
}

#[test]
fn test_once_guard() {
    // c.txt is reachable through b.txt and directly; it appears once, at
    // its first-encountered inclusion, and is paths_seen exactly once.
    let mut store = FileStore::new();
    add_plain_file(
        &mut store,
        "/d/a.txt",
        "top\n#include \"b.txt\"\n#include \"c.txt\"\nbottom\n",
    );
    add_plain_file(&mut store, "/d/b.txt", "#include \"c.txt\"\nfrom b\n");
    add_plain_file(&mut store, "/d/c.txt", "#pragma once\nC TEXT\n");

    let (res, tracker) = run("/d/a.txt", SearchPaths::new(), &store);
    let out = res.unwrap();
    // c's text appears under b's inclusion only; the later direct
    // inclusion is suppressed (an empty descent still ends with the
    // inserted newline).
    assert_eq!(
        out,
        "top\nC TEXT\n\nfrom b\n\nbottom\n".as_bytes()
    );
    let c_count = tracker
        .iter()
        .filter(|p| p.0 == bv("/d/c.txt"))
        .count();
    assert_eq!(c_count, 1);
}

#[test]
fn test_once_guard_anywhere_in_file() {
    // The guard counts wherever it stands, not only on the first line.
    let mut store = FileStore::new();
    add_plain_file(
        &mut store,
        "/d/a.txt",
        "#include \"g.txt\"\n#include \"g.txt\"\nend\n",
    );
    add_plain_file(&mut store, "/d/g.txt", "guarded\n#pragma once\n");

    let (res, _) = run("/d/a.txt", SearchPaths::new(), &store);
    assert_eq!(res.unwrap(), "guarded\n\nend\n".as_bytes());
}

#[test]
fn test_unguarded_file_repeats() {
    let mut store = FileStore::new();
    add_plain_file(
        &mut store,
        "/d/a.txt",
        "#include \"u.txt\"\n#include \"u.txt\"\n",
    );
    add_plain_file(&mut store, "/d/u.txt", "U\n");

    let (res, tracker) = run("/d/a.txt", SearchPaths::new(), &store);
    assert_eq!(res.unwrap(), "U\n\nU\n\n".as_bytes());
    let u_count = tracker.iter().filter(|p| p.0 == bv("/d/u.txt")).count();
    assert_eq!(u_count, 1);
}

#[test]
fn test_unresolved_include_location() {
    // `#include "missing.txt"` on 0-indexed line 2 of a.txt.
    let mut store = FileStore::new();
    let source = "zero\none\n#include \"missing.txt\"\nthree\n";
    add_plain_file(&mut store, "/d/a.txt", source);

    let (res, tracker) = run("/d/a.txt", SearchPaths::new(), &store);
    match res {
        Err(Error::FileNotFound(e)) => {
            assert_eq!(e.included_path(), &bv("missing.txt"));
            assert_eq!(e.source_file(), &bv("/d/a.txt"));
            assert_eq!(e.source(), &bv(source));
            assert_eq!(e.line_number(), 2);
        }
        _ => panic!("expected a not-found failure"),
    }
    assert!(tracker.is_empty());
}

#[test]
fn test_search_path_precedence() {
    // Both the including file's directory and a configured quoted path
    // hold b.txt: the directory-relative file wins.
    let mut store = FileStore::new();
    add_plain_file(&mut store, "/d/a.txt", "#include \"b.txt\"\n");
    add_plain_file(&mut store, "/d/b.txt", "near\n");
    add_plain_file(&mut store, "/q/b.txt", "far\n");

    let mut search_paths = SearchPaths::new();
    search_paths.push_quoted_path(bv("/q"));

    let (res, _) = run("/d/a.txt", search_paths, &store);
    assert_eq!(res.unwrap(), "near\n\n".as_bytes());
}

#[test]
fn test_quoted_falls_back_to_search_paths() {
    let mut store = FileStore::new();
    add_plain_file(&mut store, "/d/a.txt", "#include \"b.txt\"\n");
    add_plain_file(&mut store, "/q/b.txt", "far\n");

    let mut search_paths = SearchPaths::new();
    search_paths.push_quoted_path(bv("/q"));

    let (res, _) = run("/d/a.txt", search_paths, &store);
    assert_eq!(res.unwrap(), "far\n\n".as_bytes());
}

#[test]
fn test_angle_ignores_directory() {
    // An angle include is resolved only against the base paths, never
    // next to the including file.
    let mut store = FileStore::new();
    add_plain_file(&mut store, "/d/a.txt", "#include <b.txt>\n");
    add_plain_file(&mut store, "/d/b.txt", "near\n");
    add_plain_file(&mut store, "/base/b.txt", "based\n");

    let mut search_paths = SearchPaths::new();
    search_paths.push_base_path(bv("/base"));

    let (res, _) = run("/d/a.txt", search_paths, &store);
    assert_eq!(res.unwrap(), "based\n\n".as_bytes());
}

#[test]
fn test_angle_base_path_order() {
    let mut store = FileStore::new();
    add_plain_file(&mut store, "/d/a.txt", "#include <b.txt>\n");
    add_plain_file(&mut store, "/one/b.txt", "first\n");
    add_plain_file(&mut store, "/two/b.txt", "second\n");

    let mut search_paths = SearchPaths::new();
    search_paths.push_base_path(bv("/one"));
    search_paths.push_base_path(bv("/two"));

    let (res, _) = run("/d/a.txt", search_paths, &store);
    assert_eq!(res.unwrap(), "first\n\n".as_bytes());
}

#[test]
fn test_io_error_on_missing_entry() {
    let store = FileStore::new();
    let (res, _) = run("/d/absent.txt", SearchPaths::new(), &store);
    match res {
        Err(Error::IO(e)) => {
            assert_eq!(e.path(), &bv("/d/absent.txt"));
        }
        _ => panic!("expected an I/O failure"),
    }
}

#[test]
fn test_io_error_on_unreadable_include() {
    // b.txt resolves (it exists) but its bytes were never recorded: the
    // read fails.
    let mut store = FileStore::new();
    add_plain_file(&mut store, "/d/a.txt", "#include \"b.txt\"\n");
    store.add_file(bv("/d/b.txt"), bv("/d/b.txt"));

    let (res, _) = run("/d/a.txt", SearchPaths::new(), &store);
    match res {
        Err(Error::IO(e)) => {
            assert_eq!(e.path(), &bv("/d/b.txt"));
        }
        _ => panic!("expected an I/O failure"),
    }
}

#[test]
fn test_malformed_directive() {
    // The one line no class matches: a bare carriage return that no
    // line feed follows.
    let source = "fine\nbad\rline\n";
    let mut store = FileStore::new();
    add_plain_file(&mut store, "/d/a.txt", source);

    let (res, _) = run("/d/a.txt", SearchPaths::new(), &store);
    match res {
        Err(Error::Parse(e)) => {
            assert_eq!(e.message(), &bv("malformed directive"));
            assert_eq!(e.source_file(), &bv("/d/a.txt"));
            assert_eq!(e.source(), &bv(source));
            assert_eq!(e.line_number(), 1);
        }
        _ => panic!("expected a malformed-directive failure"),
    }
}

#[test]
fn test_malformed_include_shapes_pass_through() {
    // Directive-shaped lines that fail the grammar are not errors: they
    // pass through verbatim as text.
    let source = "#include <unclosed\n#include undelimited\nreal\n";
    let mut store = FileStore::new();
    add_plain_file(&mut store, "/d/a.txt", source);

    let (res, _) = run("/d/a.txt", SearchPaths::new(), &store);
    assert_eq!(res.unwrap(), source.as_bytes());
}

#[test]
fn test_cycle_detected() {
    // a includes b, b includes a, neither carries a once-guard: the
    // replay refuses the unbounded recursion.
    let mut store = FileStore::new();
    add_plain_file(&mut store, "/d/a.txt", "A\n#include \"b.txt\"\n");
    add_plain_file(&mut store, "/d/b.txt", "B\n#include \"a.txt\"\n");

    let (res, tracker) = run("/d/a.txt", SearchPaths::new(), &store);
    match res {
        Err(Error::Cycle(e)) => {
            assert_eq!(e.path(), &bv("/d/a.txt"));
        }
        _ => panic!("expected a cycle failure"),
    }
    assert!(tracker.is_empty());
}

#[test]
fn test_guarded_elsewhere_cycle_refused() {
    // The cycle carries a guard on b, but the re-entered file a is
    // unguarded: the replay refuses the re-entry and reports the cycle,
    // the same rule as for a wholly unguarded one.
    let mut store = FileStore::new();
    add_plain_file(&mut store, "/d/a.txt", "A\n#include \"b.txt\"\n");
    add_plain_file(
        &mut store,
        "/d/b.txt",
        "#pragma once\nB\n#include \"a.txt\"\n",
    );

    let (res, tracker) = run("/d/a.txt", SearchPaths::new(), &store);
    match res {
        Err(Error::Cycle(e)) => {
            assert_eq!(e.path(), &bv("/d/a.txt"));
        }
        _ => panic!("expected a cycle failure"),
    }
    assert!(tracker.is_empty());
}

#[test]
fn test_guarded_cycle_flattens() {
    // The same shape with once-guards terminates: the re-entry is
    // suppressed.
    let mut store = FileStore::new();
    add_plain_file(
        &mut store,
        "/d/a.txt",
        "#pragma once\nA\n#include \"b.txt\"\n",
    );
    add_plain_file(
        &mut store,
        "/d/b.txt",
        "#pragma once\nB\n#include \"a.txt\"\n",
    );

    let (res, tracker) = run("/d/a.txt", SearchPaths::new(), &store);
    assert_eq!(res.unwrap(), "A\nB\n\n".as_bytes());
    assert_eq!(tracker.len(), 2);
}

#[test]
fn test_dedup_same_file_two_routes() {
    // One physical file reached under two different spellings maps to one
    // node: both routes canonicalize to the same path.
    let mut store = FileStore::new();
    add_plain_file(&mut store, "/d/a.txt", "#include \"b.txt\"\n#include <sub/../b.txt>\n");
    add_plain_file(&mut store, "/d/b.txt", "#pragma once\nB\n");
    // the angle route exists as a different probe path with the same
    // canonical form
    store.add_file(bv("/d/sub/../b.txt"), bv("/d/b.txt"));

    let mut search_paths = SearchPaths::new();
    search_paths.push_base_path(bv("/d"));

    let (res, tracker) = run("/d/a.txt", search_paths, &store);
    assert_eq!(res.unwrap(), "B\n\n".as_bytes());
    assert_eq!(tracker.len(), 2);
}

#[test]
fn test_tracking_reports_suppressed_files() {
    // A file whose every inclusion was suppressed is still paths_seen.
    let mut store = FileStore::new();
    add_plain_file(&mut store, "/d/a.txt", "#include \"g.txt\"\n#include \"h.txt\"\n");
    add_plain_file(&mut store, "/d/g.txt", "#pragma once\nG\n");
    add_plain_file(&mut store, "/d/h.txt", "#include \"g.txt\"\nH\n");

    let (res, tracker) = run("/d/a.txt", SearchPaths::new(), &store);
    assert_eq!(res.unwrap(), "G\n\nH\n\n".as_bytes());
    let paths_seen: Vec<&[u8]> = tracker.iter().map(|p| p.0.as_slice()).collect();
    assert!(paths_seen.contains(&"/d/g.txt".as_bytes()));
    assert_eq!(tracker.len(), 3);
}

#[test]
fn test_empty_entry_file() {
    let mut store = FileStore::new();
    add_plain_file(&mut store, "/d/empty.txt", "");
    let (res, tracker) = run("/d/empty.txt", SearchPaths::new(), &store);
    assert_eq!(res.unwrap(), "".as_bytes());
    assert_eq!(tracker.len(), 1);
}

#[test]
fn test_absolute_target_replaces_directory() {
    let mut store = FileStore::new();
    add_plain_file(&mut store, "/d/a.txt", "#include \"/abs/b.txt\"\n");
    add_plain_file(&mut store, "/abs/b.txt", "ABS\n");

    let (res, _) = run("/d/a.txt", SearchPaths::new(), &store);
    assert_eq!(res.unwrap(), "ABS\n\n".as_bytes());
}

#[test]
fn test_preprocess_valid_2() {
    // A diamond: the entry includes b and c, and both include the same
    // once-guarded header.
    let mut store = FileStore::new();
    add_plain_file(
        &mut store,
        "/proj/tests/valid_2/a.txt",
        "#include \"b.txt\"\n#include \"c.txt\"\ndone\n",
    );
    add_plain_file(
        &mut store,
        "/proj/tests/valid_2/b.txt",
        "#include \"common.txt\"\nbody b\n",
    );
    add_plain_file(
        &mut store,
        "/proj/tests/valid_2/c.txt",
        "#include \"common.txt\"\nbody c\n",
    );
    add_plain_file(
        &mut store,
        "/proj/tests/valid_2/common.txt",
        "#pragma once\nshared\n",
    );

    let mut search_paths = SearchPaths::new();
    search_paths.push_base_path(bv("/proj"));

    let (res, tracker) = run("/proj/tests/valid_2/a.txt", search_paths, &store);
    let expected = "shared\n\nbody b\n\nbody c\n\ndone\n";
    assert_eq!(res.unwrap(), expected.as_bytes());

    let paths_seen: Vec<&[u8]> = tracker.iter().map(|p| p.0.as_slice()).collect();
    assert!(paths_seen.contains(&"/proj/tests/valid_2/a.txt".as_bytes()));
    assert!(paths_seen.contains(&"/proj/tests/valid_2/b.txt".as_bytes()));
    assert!(paths_seen.contains(&"/proj/tests/valid_2/c.txt".as_bytes()));
    assert!(paths_seen.contains(&"/proj/tests/valid_2/common.txt".as_bytes()));
    assert_eq!(tracker.len(), 4);
}
