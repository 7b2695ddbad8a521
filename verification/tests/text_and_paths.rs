use tracer::cache::{file_hash_from_bytes, is_cache_entry};
use tracer::civil::{days_from_civil, unix_to_ymd};
use tracer::digest::{doc_candidates, leading_comment, nearest_doc_of};
use tracer::glob::{fnmatch, fnmatch_translate};
use tracer::jsonfmt::escape_fragment;
use tracer::lang::{accepted, resolve};
use tracer::ordered::{sorted_unique, text_less};
use tracer::paths::{extension, without_extension};
use tracer::repo_files::{join_path, nested_repo_rels, relative_to_root, skip_dirs, sort_paths, tracked_paths};

#[test]
fn civil_dates_round_trip_through_day_counts() {
    assert_eq!(days_from_civil(1970, 1, 1), 0);
    assert_eq!(days_from_civil(2000, 3, 1), 11017);
    assert_eq!(unix_to_ymd(0), "1970-01-01");
    assert_eq!(unix_to_ymd(951868800), "2000-03-01");
    assert_eq!(unix_to_ymd(-86400), "1969-12-31");
}

#[test]
fn languages_resolve_case_insensitively() {
    let l = resolve("TSX").unwrap();
    assert_eq!(l.name, "tsx");
    assert_eq!(l.rg, "ts");
    assert_eq!(l.sg, "tsx");
    assert_eq!(l.exts, vec!["tsx"]);
    assert!(resolve("cobol").is_none());
    assert_eq!(resolve("markdown").unwrap().sg, "");
    assert!(accepted().starts_with("python, py, javascript, js, jsx"));
    assert!(accepted().ends_with("markdown, md"));
}

#[test]
fn globs_translate_and_match() {
    assert_eq!(fnmatch_translate("*.rs"), "(?s:.*\\.rs)\\z");
    assert_eq!(fnmatch_translate("[!a]?"), "(?s:[^a].)\\z");
    assert_eq!(fnmatch_translate("a["), "(?s:a\\[)\\z");
    assert!(fnmatch("main.rs", "*.rs"));
    assert!(!fnmatch("main.rs", "*.py"));
    assert!(fnmatch("ab", "[!x]?"));
}

#[test]
fn texts_sort_like_a_btree_set() {
    let v = vec!["b".to_string(), "a".to_string(), "b".to_string(), "ab".to_string()];
    assert_eq!(sorted_unique(&v), vec!["a", "ab", "b"]);
    assert!(text_less("a", "ab"));
    assert!(!text_less("b", "ab"));
}

#[test]
fn paths_join_strip_and_split() {
    assert_eq!(join_path("/repo", "src/a.rs"), "/repo/src/a.rs");
    assert_eq!(join_path("/repo/", "src/a.rs"), "/repo/src/a.rs");
    assert_eq!(join_path("/repo", "/abs"), "/abs");
    assert_eq!(relative_to_root("/repo/src/a.rs", "/repo"), "src/a.rs");
    assert_eq!(relative_to_root("/other/a.rs", "/repo"), "/other/a.rs");
    assert_eq!(relative_to_root("/repository/a.rs", "/repo"), "/repository/a.rs");
    assert_eq!(
        tracked_paths("/r", Some(vec!["a".to_string(), "b/c".to_string()])),
        Some(vec!["/r/a".to_string(), "/r/b/c".to_string()])
    );
    assert_eq!(tracked_paths("/r", None), None);
    assert_eq!(extension("dir/file.tar.gz").as_deref(), Some("gz"));
    assert_eq!(extension(".bashrc"), None);
    assert_eq!(without_extension("a/b.rs"), "a/b");
    assert!(skip_dirs().contains(&"node_modules".to_string()));
    assert_eq!(skip_dirs().len(), 10);
}

#[test]
fn nested_repos_keep_only_the_outermost() {
    let found = vec![
        "/base/a".to_string(),
        "/base/a/inner".to_string(),
        "/base/ab".to_string(),
        "/base/z".to_string(),
    ];
    assert_eq!(nested_repo_rels("/base", &found), vec!["a", "ab", "z"]);
}

#[test]
fn cache_entries_are_json_files_and_keys_are_hex_sha256() {
    assert!(is_cache_entry("/c/file/abc.json"));
    assert!(!is_cache_entry("/c/file/abc.json.1.tmp"));
    assert!(!is_cache_entry("/c/file/.lock"));
    let k = file_hash_from_bytes(b"fn main() {}", "src/main.rs");
    assert_eq!(k.len(), 64);
    assert!(k.chars().all(|c| c.is_ascii_hexdigit() && !c.is_ascii_uppercase()));
    assert_ne!(k, file_hash_from_bytes(b"fn main() {}", "src/other.rs"));
    assert_eq!(k, file_hash_from_bytes(b"fn main() {}", "src/main.rs"));
}

#[test]
fn json_escaping_is_ascii() {
    assert_eq!(escape_fragment("a\"b"), "a\"b");
    assert_eq!(escape_fragment("\u{1F600}"), "\\ud83d\\ude00");
    assert_eq!(escape_fragment("é"), "\\u00e9");
    assert_eq!(escape_fragment("plain"), "plain");
}

#[test]
fn leading_comments_of_each_kind() {
    let block = b"/**\n * Parses things.\n * Second line.\n */\nfn x() {}\n";
    assert_eq!(leading_comment(block, 15).as_deref(), Some("Parses things.\nSecond line."));
    let hash = b"#!/usr/bin/env python\n# Tool one.\n# Does two.\n\nimport os\n";
    assert_eq!(leading_comment(hash, 15).as_deref(), Some("Tool one.\nDoes two."));
    let doc = b"\"\"\"Single line doc.\"\"\"\n";
    assert_eq!(leading_comment(doc, 15).as_deref(), Some("Single line doc."));
    let multi = b"'''\nFirst.\nSecond.\n'''\n";
    assert_eq!(leading_comment(multi, 15).as_deref(), Some("First.\nSecond.\n"));
    let php = b"<?php\n// Controller.\n";
    assert_eq!(leading_comment(php, 15).as_deref(), Some("Controller."));
    assert_eq!(leading_comment(b"fn main() {}\n", 15), None);
    assert_eq!(leading_comment(b"", 15), None);
    assert_eq!(leading_comment(b"\n\n// late\n", 2), None);
}

#[test]
fn dot_components_collapse_lexically() {
    assert_eq!(tracer::digest::normalize_dots("/repo/./src/../docs/README.md"), "/repo/docs/README.md");
    assert_eq!(tracer::digest::normalize_dots("./a//b/"), "a/b");
    assert_eq!(tracer::digest::normalize_dots("../x"), "x");
    assert_eq!(tracer::digest::normalize_dots("/.."), "/");
    assert_eq!(tracer::digest::normalize_dots(""), "");
}

#[test]
fn nearest_doc_probes_upward_in_name_order() {
    let names = vec!["Readme.md".to_string(), "README.md".to_string(), "ARCHITECTURE.md".to_string()];
    let c = doc_candidates("/r/src/a.py", true, &names);
    assert_eq!(
        c,
        vec!["/r/src/Readme.md", "/r/src/README.md", "/r/src/ARCHITECTURE.md", "/r/Readme.md", "/r/README.md", "/r/ARCHITECTURE.md"]
    );
    let d = doc_candidates("/r/./x/../y", false, &names);
    assert_eq!(d[0], "/r/y/Readme.md");
    assert_eq!(d[3], "/r/Readme.md");
    assert_eq!(d[6], "/r/x/Readme.md");
    assert_eq!(d.len(), 12);
    assert!(doc_candidates("/", false, &names).is_empty());
}

#[test]
fn nested_repos_come_back_in_path_order() {
    let found = vec!["/base/a-c".to_string(), "/base/a/b".to_string(), "/base/a-c/x".to_string()];
    assert_eq!(nested_repo_rels("/base", &found), vec!["a/b", "a-c"]);
    assert_eq!(
        sort_paths(&vec!["/x/b".to_string(), "/x/a-b".to_string(), "/x/a/z".to_string(), "/x".to_string()]),
        vec!["/x", "/x/a/z", "/x/a-b", "/x/b"]
    );
}

#[test]
fn nearest_doc_is_the_first_probe_that_exists() {
    let c = vec!["/r/a/README.md".to_string(), "/r/a/ARCHITECTURE.md".to_string(), "/r/README.md".to_string()];
    assert_eq!(nearest_doc_of(&c, &vec![false, true, true]), Some("/r/a/ARCHITECTURE.md".to_string()));
    assert_eq!(nearest_doc_of(&c, &vec![false, false, false]), None);
    assert_eq!(nearest_doc_of(&c, &vec![false]), None);
}
