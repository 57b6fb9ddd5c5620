use stria::search::grouping::{group_rows, Found, Tier};
use stria::search::paths::{file_module, filename_coverage, names_term, path_role_mult};
use stria::search::rerank::{
    best_term, count_held, needs_requery, replaces, spans_terms, terms_held,
};
use stria::search::terms::{expand_lowered, expand_terms, query_terms};

fn strings(v: &[&str]) -> Vec<String> {
    v.iter().map(|s| s.to_string()).collect()
}

#[test]
fn roles_of_paths() {
    assert_eq!(path_role_mult("src/main.rs"), 200);
    assert_eq!(path_role_mult("app/src/test/a.rs"), 200);
    assert_eq!(path_role_mult("a\\src\\b.rs"), 200);
    assert_eq!(path_role_mult("tests/a.rs"), 60);
    assert_eq!(path_role_mult("lib/spec/a.rb"), 60);
    assert_eq!(path_role_mult("vendor/x.go"), 30);
    assert_eq!(path_role_mult("a/deps/x.go"), 30);
    assert_eq!(path_role_mult("scripts/x.sh"), 60);
    assert_eq!(path_role_mult("README.md"), 25);
    assert_eq!(path_role_mult("doc/a.txt"), 25);
    assert_eq!(path_role_mult("lib/a.go"), 100);
    assert_eq!(path_role_mult("contest.go"), 100);
}

#[test]
fn coverage_of_file_names() {
    let terms = strings(&["Gen_Server", "start", "zzz"]);
    assert_eq!(filename_coverage("lib/gen-server_START.erl", &terms), 2);
    assert_eq!(filename_coverage("lib/gen_server.erl", &terms), 1);
    assert_eq!(filename_coverage("lib/other.erl", &terms), 0);
    assert_eq!(filename_coverage("a_b.c", &strings(&["a-b"])), 1);
    assert_eq!(filename_coverage("x", &vec![]), 0);
}

#[test]
fn modules_of_paths() {
    assert_eq!(file_module("a/b/c.rs"), "a/b");
    assert_eq!(file_module("c.rs"), "");
    assert_eq!(file_module("/c.rs"), "");
}

#[test]
fn unknown_terms_are_lowered_and_split() {
    let r = expand_terms(&strings(&["GenServer"]), &vec![false]);
    assert_eq!(r, vec!["GenServer", "genserver"]);
    let r = expand_terms(&strings(&["gen_server_start"]), &vec![false]);
    assert_eq!(
        r,
        vec!["gen_server_start", "gen", "server", "start", "gen_server", "server_start"]
    );
}

#[test]
fn known_terms_are_not_split() {
    let r = expand_terms(&strings(&["gen_server", "ArrayList"]), &vec![true, true]);
    assert_eq!(r, vec!["gen_server", "ArrayList"]);
}

#[test]
fn stems_are_added() {
    assert_eq!(expand_terms(&strings(&["parsing"]), &vec![true]), vec!["parsing", "pars"]);
    assert_eq!(expand_terms(&strings(&["files"]), &vec![true]), vec!["files", "file"]);
    assert_eq!(expand_terms(&strings(&["parsed"]), &vec![true]), vec!["parsed", "pars"]);
    assert_eq!(expand_terms(&strings(&["action"]), &vec![true]), vec!["action", "ac"]);
    assert_eq!(expand_terms(&strings(&["actions"]), &vec![true]), vec!["actions", "action"]);
    assert_eq!(expand_terms(&strings(&["bed"]), &vec![true]), vec!["bed"]);
    assert_eq!(expand_terms(&strings(&["sing"]), &vec![true]), vec!["sing"]);
    assert_eq!(expand_terms(&strings(&["bus"]), &vec![true]), vec!["bus"]);
}

#[test]
fn terms_are_not_repeated() {
    let r = expand_terms(&strings(&["file", "Files", "file"]), &vec![false, false, false]);
    assert_eq!(r, vec!["file", "Files", "files"]);
}

#[test]
fn the_last_answer_for_a_lowercase_form_counts() {
    let r = expand_terms(&strings(&["Abc_Def", "ABC_DEF"]), &vec![false, true]);
    assert_eq!(r, vec!["Abc_Def", "ABC_DEF"]);
    let r = expand_terms(&strings(&["Abc_Def", "ABC_DEF"]), &vec![true, false]);
    assert_eq!(r, vec!["Abc_Def", "ABC_DEF", "abc_def", "abc", "def"]);
}

#[test]
fn short_parts_are_left_out() {
    let r = expand_terms(&strings(&["ab_cdef_gh_ijk"]), &vec![false]);
    assert_eq!(r, vec!["ab_cdef_gh_ijk", "cdef", "ijk", "cdef_ijk"]);
}

#[test]
fn queries_are_cut_to_a_hundred_terms() {
    let (v, cut) = query_terms("find the open_file function");
    assert_eq!(v, vec!["find", "the", "open_file", "function"]);
    assert!(!cut);
    let many: Vec<String> = (0..150).map(|i| format!("term{}", i)).collect();
    let (v, cut) = query_terms(&many.join(" "));
    assert_eq!(v.len(), 100);
    assert!(cut);
    assert_eq!(v[99], "term99");
    assert_eq!(query_terms("a b"), (vec![], false));
}

#[test]
fn a_search_is_repeated_where_the_top_misses_a_term() {
    let terms = strings(&["Parse", "tree"]);
    assert!(needs_requery(None, &terms));
    assert!(needs_requery(Some("src/parse.rs"), &terms));
    assert!(!needs_requery(Some("src/PARSE_Tree.rs"), &terms));
    assert!(!needs_requery(Some("src/x.rs"), &strings(&["parse"])));
    assert!(!needs_requery(None, &strings(&["parse"])));
}

#[test]
fn the_last_of_the_largest_is_best() {
    assert_eq!(best_term(&vec![1, 5, 5, 2]), 2);
    assert_eq!(best_term(&vec![7]), 0);
    assert_eq!(best_term(&vec![]), 0);
}

#[test]
fn results_count_for_the_terms_that_they_hold() {
    let terms = strings(&["parse", "Tree", "walk"]);
    assert_eq!(terms_held("src/tree_WALK.rs", &terms, 0), 3);
    assert_eq!(terms_held("src/parse.rs", &terms, 0), 1);
    assert_eq!(terms_held("src/parse.rs", &terms, 1), 2);
}

#[test]
fn another_top_replaces_the_results() {
    assert!(replaces(Some("a"), Some("b")));
    assert!(!replaces(Some("a"), Some("a")));
    assert!(replaces(None, Some("a")));
    assert!(replaces(Some("a"), None));
    assert!(!replaces(None, None));
}

#[test]
fn rows_are_grouped_by_file_tier_and_term() {
    let row = |file: i64, term: usize, tier: Tier| Found { file, term, tier };
    let found = vec![
        row(7, 0, Tier::Exact),
        row(3, 0, Tier::Exact),
        row(7, 1, Tier::Exact),
        row(7, 0, Tier::Prefix),
        row(3, 0, Tier::Inside),
        row(7, 0, Tier::Prefix),
    ];
    let groups = group_rows(&found);
    let flat: Vec<(i64, Vec<(Tier, usize, Vec<usize>)>)> = groups
        .into_iter()
        .map(|g| (g.file, g.parts.into_iter().map(|p| (p.tier, p.term, p.rows)).collect()))
        .collect();
    assert_eq!(
        flat,
        vec![
            (
                7,
                vec![
                    (Tier::Exact, 0, vec![0]),
                    (Tier::Exact, 1, vec![2]),
                    (Tier::Prefix, 0, vec![3, 5])
                ]
            ),
            (3, vec![(Tier::Exact, 0, vec![1]), (Tier::Inside, 0, vec![4])]),
        ]
    );
    assert!(group_rows(&vec![]).is_empty());
}

#[test]
fn terms_as_written() {
    assert!(names_term("a-b.c", "a_b"));
    assert!(!names_term("A-b.c", "a_b"));
    assert!(spans_terms("parse_tree", &strings(&["parse", "tree"])));
    assert!(!spans_terms("parse_Tree", &strings(&["parse", "tree"])));
    assert_eq!(count_held("parse_tree", &strings(&["parse", "tree", "x"]), 2), 3);
    assert_eq!(
        expand_lowered(&strings(&["Ab_cd"]), &strings(&["one_three"]), &vec![false]),
        vec!["Ab_cd", "one_three", "one", "three"]
    );
}
