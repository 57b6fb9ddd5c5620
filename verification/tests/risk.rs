use stria::index::schema::pack_flags;
use stria::structural_risk::{
    blast_radius, defined_phrases, definition_file, find_verify_candidates, hologram_plan, latent_deps,
    part, plan_count, plan_weight, ranked, tally, task_terms, telling_phrases, who_calls, NameUse, Risk,
    Trace,
};

fn strings(v: &[&str]) -> Vec<String> {
    v.iter().map(|s| s.to_string()).collect()
}

fn flags(is_def: i32) -> u8 {
    pack_flags(is_def, 0, 1)[0]
}

fn pairs(v: &[(&str, u64)]) -> Vec<(String, u64)> {
    v.iter().map(|(s, n)| (s.to_string(), *n)).collect()
}

#[test]
fn weights_are_added_up_and_ranked() {
    let items: Vec<(String, u32)> =
        vec![("a".to_string(), 2), ("b".to_string(), 5), ("a".to_string(), 4), ("c".to_string(), 6)];
    let m = tally(&items);
    assert_eq!(m.get("a"), Some(&6));
    assert_eq!(m.get("d"), None);
    assert_eq!(ranked(&m, 2), pairs(&[("a", 6), ("c", 6)]));
    assert_eq!(ranked(&m, 9), pairs(&[("a", 6), ("c", 6), ("b", 5)]));
    assert_eq!(blast_radius(&items), pairs(&[("a", 6), ("c", 6), ("b", 5)]));
}

#[test]
fn blast_radius_keeps_twenty() {
    let items: Vec<(String, u32)> = (0..30).map(|i| (format!("f{}", i), i)).collect();
    let r = blast_radius(&items);
    assert_eq!(r.len(), 20);
    assert_eq!(r[0], ("f29".to_string(), 29));
    assert_eq!(r[19], ("f10".to_string(), 10));
}

fn a_use(file: i64, path: &str, count: u32, is_def: i32) -> NameUse {
    NameUse { file, path: path.to_string(), count, flags: flags(is_def) }
}

#[test]
fn definitions_have_a_score_of_at_least_one() {
    let uses = vec![a_use(4, "a", 1, 0), a_use(5, "b", 1, 2), a_use(6, "c", 1, 1)];
    assert_eq!(definition_file(&uses), Some(5));
    assert_eq!(definition_file(&vec![a_use(4, "a", 1, 0), a_use(6, "c", 1, 1)]), Some(6));
    assert_eq!(definition_file(&vec![a_use(4, "a", 1, 0), a_use(5, "b", 1, -1)]), None);
    let rows: Vec<(String, u8)> =
        [("x", 1), ("y", 2), ("z", 0)].iter().map(|(p, d)| (p.to_string(), flags(*d))).collect();
    assert_eq!(defined_phrases(&rows), vec!["x", "y"]);
}

#[test]
fn callers_are_outside_the_defining_file() {
    let uses = vec![a_use(1, "a", 3, 0), a_use(2, "b", 1, 2), a_use(3, "c", 40, 1)];
    assert_eq!(who_calls(&uses), vec![("a".to_string(), 3), ("c".to_string(), 40)]);
    let unknown = vec![a_use(1, "a", 3, 0), a_use(2, "b", 1, -1)];
    assert_eq!(who_calls(&unknown), vec![("a".to_string(), 3), ("b".to_string(), 1)]);
    assert!(who_calls(&vec![]).is_empty());
    assert!(who_calls(&vec![a_use(1, "a", 1, 1)]).is_empty());
}

#[test]
fn every_file_that_uses_a_name_calls_it_once() {
    let uses: Vec<NameUse> =
        (0..50).map(|i| a_use(i, &format!("f{}", i), 1, i32::from(i == 7))).collect();
    let paths: Vec<String> = who_calls(&uses).into_iter().map(|c| c.0).collect();
    let expected: Vec<String> = (0..50).filter(|i| *i != 7).map(|i| format!("f{}", i)).collect();
    assert_eq!(paths, expected);
}

#[test]
fn callers_are_traced_step_by_step() {
    let mut t = Trace::new(3);
    assert!(t.wants_more());
    t.add_step(&strings(&["a", "b", "a"]));
    assert_eq!(t.hops, vec![strings(&["a", "b"])]);
    assert!(t.wants_more());
    t.add_step(&strings(&["b", "c", "a", "c"]));
    assert_eq!(t.hops[1], strings(&["c"]));
    assert!(t.wants_more());
    t.add_step(&strings(&["a"]));
    assert!(t.hops[2].is_empty());
    assert!(!t.wants_more());
    let mut direct = Trace::new(1);
    direct.add_step(&strings(&["a"]));
    assert!(!direct.wants_more());
    let mut none = Trace::new(5);
    none.add_step(&vec![]);
    assert!(!none.wants_more());
    assert!(!Trace::new(0).wants_more());
}

#[test]
fn hidden_dependencies_are_in_other_modules() {
    let sharing = strings(&["a/x.rs", "b/y.rs", "c/z.rs", "b/y.rs", "root.rs", "a/w.rs"]);
    assert_eq!(
        latent_deps("a/m.rs", &sharing),
        pairs(&[("b/y.rs", 2), ("c/z.rs", 1), ("root.rs", 1)])
    );
    assert_eq!(
        latent_deps("root.rs", &strings(&["other.rs", "root.rs"])),
        pairs(&[("other.rs", 1)])
    );
    assert!(latent_deps("a/m.rs", &vec![]).is_empty());
}

#[test]
fn telling_phrases_are_defined() {
    let rows = vec![
        ("x".to_string(), flags(0), 1),
        ("y".to_string(), flags(1), 2),
        ("z".to_string(), flags(2), 3),
        ("w".to_string(), flags(-1), 4),
    ];
    assert_eq!(telling_phrases(&rows), vec![("y".to_string(), 2), ("z".to_string(), 3)]);
}

#[test]
fn tests_are_ranked_by_what_they_define() {
    let rows = vec![
        ("t/a".to_string(), flags(1)),
        ("t/b".to_string(), flags(2)),
        ("t/b".to_string(), flags(1)),
        ("t/c".to_string(), flags(0)),
    ];
    assert_eq!(find_verify_candidates(&rows), pairs(&[("t/b", 2), ("t/a", 1)]));
}

#[test]
fn plans_follow_the_ranking() {
    let scored = strings(&["a.rs", "tests/b.rs", "c.rs", "d_test.rs", "e.rs", "test1", "test2"]);
    let p = hologram_plan(&scored, true);
    assert_eq!(p.edit, Some("a.rs".to_string()));
    assert_eq!(p.read_first, vec!["a.rs", "tests/b.rs", "c.rs"]);
    assert_eq!(p.coupled, vec!["tests/b.rs", "c.rs", "d_test.rs", "e.rs"]);
    assert_eq!(p.verify, vec!["tests/b.rs", "d_test.rs", "test1"]);
    assert_eq!(p.risk, Risk::Low);
    assert_eq!(hologram_plan(&scored, false).risk, Risk::Moderate);
    let none = hologram_plan(&vec![], true);
    assert_eq!(none.edit, None);
    assert!(none.read_first.is_empty() && none.coupled.is_empty() && none.verify.is_empty());
    assert_eq!(none.risk, Risk::Unknown);
    assert_eq!(none.risk.name(), "unknown");
    assert_eq!(p.risk.name(), "low");
    assert_eq!(Risk::Moderate.name(), "moderate");
}

#[test]
fn parts_of_lists() {
    let l = strings(&["a", "b", "c"]);
    assert_eq!(part(&l, 1, 9), vec!["b", "c"]);
    assert_eq!(part(&l, 5, 9), Vec::<String>::new());
    assert_eq!(part(&l, 2, 1), Vec::<String>::new());
}

#[test]
fn phrases_in_plans() {
    assert_eq!(plan_count(pack_flags(0, 0, 30)[0]), 30);
    assert_eq!(plan_count(pack_flags(0, 0, 31)[0]), 1);
    assert_eq!(plan_weight(flags(1)), 5);
    assert_eq!(plan_weight(flags(2)), 5);
    assert_eq!(plan_weight(flags(0)), 1);
    assert_eq!(plan_weight(flags(-1)), 1);
}

#[test]
fn tasks_are_planned_by_their_phrases() {
    assert_eq!(task_terms("Fix the ParseTree in a_b"), vec!["fix", "the", "parsetree", "a_b"]);
}
