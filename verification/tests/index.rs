use stria::index::cache::{digests_to_json, mtimes_to_json, read_digests, read_mtimes};
use stria::index::changes::{build_kind, BuildKind, ChangePlan};
use stria::index::contexts::ContextTable;
use stria::index::digest::content_digest;
use stria::index::extract::{word_before, FileStats, WorkerResult};
use stria::index::files::{
    analyzes, chunk_size, is_source_file, keep_entry, number_all, number_files, count_phrases,
    samples_contexts, sorted, source_files, FoundFile,
};
use stria::index::merged::Merged;
use stria::index::rows::{
    average_len, file_rows, lay_out, number_phrases, pack_row, Kept, Layout, StoredRow,
};
use stria::index::occurrences::{OccEntry, PhraseEntry};
use stria::lcep::{sampled_total, EntropyBand};
use stria::search::hits::{read_hit, Hit};
use stria::text_map::TextMap;

const FIRST: &str = "fn alpha() {\n    beta(alpha);\n}\n";
const SECOND: &str = "// gamma\nx = alpha(3);\n";

fn two_workers() -> Merged {
    let mut a = WorkerResult::new(true);
    a.index_file(1, "a.rs", FIRST);
    let mut b = WorkerResult::new(true);
    b.index_file(2, "b.rs", SECOND);
    let mut m = Merged::new();
    m.absorb(a);
    m.absorb(b);
    m
}

fn numbered(l: &Layout) -> Vec<(i64, &str, bool)> {
    l.list.phrases.iter().map(|p| (p.id, p.text.as_str(), p.is_new)).collect()
}

fn rows_of(l: &Layout) -> Vec<(i64, i64, u32, i32, OccEntry)> {
    l.rows.iter().map(|r| (r.key.0, r.key.1, r.df, r.score, r.entry)).collect()
}

#[test]
fn a_file_is_read() {
    let mut w = WorkerResult::new(true);
    w.index_file(7, "a.rs", FIRST);
    assert_eq!(
        w.stats,
        vec![FileStats {
            file: 7,
            token_len: 2,
            content_len: FIRST.len(),
            comment_lines: 0,
            lines: 3
        }]
    );
    assert_eq!(w.digests, vec![("a.rs".to_string(), content_digest(FIRST.as_bytes()))]);
    let phrases: Vec<(&str, u32)> =
        w.tables.phrases.iter().map(|e| (e.text.as_str(), e.seen)).collect();
    assert_eq!(phrases, vec![("alpha", 2), ("beta", 1)]);
    assert_eq!(w.left_ctx.entries.len(), 1);
    assert_eq!(w.left_ctx.entries[0].phrase, "alpha");
    assert_eq!(
        w.left_ctx.entries[0].counts,
        vec![("fn".to_string(), 1), ("beta(".to_string(), 1)]
    );
}

#[test]
fn contexts_are_not_tracked_unless_asked_for() {
    let mut w = WorkerResult::new(false);
    w.index_file(7, "a.rs", FIRST);
    assert!(w.left_ctx.entries.is_empty());
    assert_eq!(w.tables.phrases.len(), 2);
}

#[test]
fn contexts_are_cut_and_lowered() {
    let long = "X".repeat(40);
    let mut w = WorkerResult::new(true);
    w.index_file(1, "a", &format!("{}! Name", long));
    let entry = w.left_ctx.entries.iter().find(|e| e.phrase == "name").unwrap();
    assert_eq!(entry.counts, vec![("x".repeat(30), 1)]);
}

#[test]
fn a_phrase_is_sampled_at_its_first_five_occurrences() {
    let mut w = WorkerResult::new(true);
    w.index_file(1, "a", "name\nname\nname\nname\nname\ndef name");
    assert!(w.left_ctx.entries.is_empty());
    let mut v = WorkerResult::new(true);
    v.index_file(1, "a", "name\nname\nname\nname\ndef name");
    assert_eq!(v.left_ctx.entries[0].counts, vec![("def".to_string(), 1)]);
    let mut u = WorkerResult::new(true);
    u.index_file(1, "a", &"fn name() {}\n".repeat(7));
    assert_eq!(u.left_ctx.entries[0].counts, vec![("fn".to_string(), 5)]);
}

#[test]
fn the_cases_of_a_phrase_are_sampled_together() {
    let mut w = WorkerResult::new(true);
    w.index_file(1, "a", &"fn Name\nfn name\n".repeat(6));
    assert_eq!(w.left_ctx.entries.len(), 1);
    assert_eq!(w.left_ctx.entries[0].phrase, "name");
    assert_eq!(w.left_ctx.entries[0].counts, vec![("fn".to_string(), 10)]);
}

#[test]
fn a_word_behind_one_word_is_a_strong_definition() {
    for times in 3..=5 {
        let mut w = WorkerResult::new(true);
        w.index_file(1, "a.rs", &"fn name() {}\n".repeat(times));
        let mut m = Merged::new();
        m.absorb(w);
        let counts: Vec<u32> = m.left_ctx.entries[0].counts.iter().map(|c| c.1).collect();
        assert_eq!(counts, vec![times as u32]);
        assert_eq!(sampled_total(&counts), Some(times as u32));
        let l = lay_out(m, &vec![Some(EntropyBand::UnderOne)], &Kept::nothing());
        assert_eq!(l.rows[0].score, 2);
    }
}

#[test]
fn comment_lines_are_counted() {
    let mut w = WorkerResult::new(true);
    w.index_file(1, "a", "# one\n // two\n/* x\n * y\n<!-- z\n> q\ncode\n");
    assert_eq!(w.stats[0].comment_lines, 6);
    assert_eq!(w.stats[0].lines, 7);
    let mut e = WorkerResult::new(true);
    e.index_file(2, "b", "");
    assert_eq!(
        e.stats[0],
        FileStats { file: 2, token_len: 0, content_len: 0, comment_lines: 0, lines: 0 }
    );
}

#[test]
fn workers_are_merged() {
    let m = two_workers();
    assert_eq!(m.stats.len(), 2);
    assert_eq!(m.digests.len(), 2);
    let phrases: Vec<(&str, u32)> =
        m.tables.phrases.iter().map(|e| (e.text.as_str(), e.seen)).collect();
    assert_eq!(phrases, vec![("alpha", 3), ("beta", 1), ("gamma", 1)]);
    let contexts: Vec<(&str, Vec<(String, u32)>)> =
        m.left_ctx.entries.iter().map(|e| (e.phrase.as_str(), e.counts.clone())).collect();
    assert_eq!(
        contexts,
        vec![
            (
                "alpha",
                vec![("fn".to_string(), 1), ("beta(".to_string(), 1), ("=".to_string(), 1)]
            ),
            ("gamma", vec![("//".to_string(), 1)]),
        ]
    );
}

#[test]
fn merging_is_reading_in_one_go() {
    let m = two_workers();
    let mut one = WorkerResult::new(false);
    one.index_file(1, "a.rs", FIRST);
    one.index_file(2, "b.rs", SECOND);
    let mut single = Merged::new();
    single.absorb(one);
    let n = m.left_ctx.entries.len();
    let a = lay_out(m, &vec![None; n], &Kept::nothing());
    let b = lay_out(single, &vec![], &Kept::nothing());
    assert_eq!(rows_of(&a), rows_of(&b));
    assert_eq!(numbered(&a), numbered(&b));
}

#[test]
fn merging_in_either_order_gives_the_same_rows() {
    let mut a = WorkerResult::new(false);
    a.index_file(1, "a.rs", FIRST);
    let mut b = WorkerResult::new(false);
    b.index_file(2, "b.rs", SECOND);
    let mut m = Merged::new();
    m.absorb(b);
    m.absorb(a);
    let n = two_workers().left_ctx.entries.len();
    let x = lay_out(m, &vec![], &Kept::nothing());
    let y = lay_out(two_workers(), &vec![None; n], &Kept::nothing());
    assert_eq!(rows_of(&x), rows_of(&y));
}

#[test]
fn the_index_is_laid_out_in_order() {
    let m = two_workers();
    let l = lay_out(m, &vec![Some(EntropyBand::UnderOne), None], &Kept::nothing());
    assert_eq!(numbered(&l), vec![(1, "alpha", true), (2, "beta", true), (3, "gamma", true)]);
    for p in &l.list.phrases {
        assert_eq!(l.list.ids[&p.key], p.id);
    }
    let keys: Vec<(i64, i64)> = l.rows.iter().map(|r| r.key).collect();
    assert_eq!(keys, vec![(1, 1), (1, 2), (2, 1), (3, 2)]);
    let dfs: Vec<u32> = l.rows.iter().map(|r| r.df).collect();
    assert_eq!(dfs, vec![2, 2, 1, 1]);
    assert_eq!(
        l.rows[0].entry,
        OccEntry { is_def: 1, zone: 0, count: 2, first_line: 0 }
    );
    assert_eq!(l.rows[0].score, 2);
    assert_eq!(l.rows[1].score, 2);
    assert_eq!(l.rows[2].score, 1);
    assert_eq!(l.rows[1].entry.first_line, 1);
}

#[test]
fn many_rows_are_sorted() {
    let mut m = Merged::new();
    for f in (1..=20i64).rev() {
        let mut w = WorkerResult::new(false);
        let mut text = String::new();
        for p in 0..50 {
            text.push_str(&format!("word{} ", (p * 7 + f) % 60));
        }
        w.index_file(f, &format!("{}.rs", f), &text);
        m.absorb(w);
    }
    let l = lay_out(m, &vec![], &Kept::nothing());
    assert_eq!(l.rows.len(), 20 * 50);
    for i in 1..l.rows.len() {
        assert!(l.rows[i - 1].key < l.rows[i].key);
    }
    for i in 1..l.list.phrases.len() {
        assert!(l.list.phrases[i - 1].text < l.list.phrases[i].text);
    }
}

#[test]
fn rows_are_packed_and_read_back() {
    let text = "total = 1;\n".repeat(40);
    let mut w = WorkerResult::new(false);
    w.index_file(3, "a", &format!("\n{}", text));
    let mut m = Merged::new();
    m.absorb(w);
    let l = lay_out(m, &vec![], &Kept::nothing());
    assert_eq!(l.rows.len(), 1);
    let s = pack_row(&l.rows[0]);
    assert_eq!(
        s,
        StoredRow { phrase: 1, file: 3, flags: s.flags, line: [1, 0], overflow: Some(40) }
    );
    assert_eq!(
        read_hit(&[s.flags], &s.line, s.overflow.unwrap_or(1)),
        Hit { count: 40, is_def: 1, zone: 0, first_line: 1 }
    );
}

#[test]
fn files_have_rows_of_their_own() {
    let m = two_workers();
    let stats = m.stats.clone();
    let l = lay_out(m, &vec![None, None], &Kept::nothing());
    let r = file_rows(&vec![1, 2, 9], &stats, &l.rows);
    assert_eq!(r.len(), 3);
    assert_eq!(
        r[2].stats,
        FileStats { file: 9, token_len: 0, content_len: 0, comment_lines: 0, lines: 0 }
    );
    assert_eq!(r[2].total_defs, 0);
    assert_eq!(r[0].stats, stats[0]);
    assert_eq!(r[0].total_defs, 4);
    assert_eq!(r[0].unique_defs, 2);
    assert_eq!(r[1].stats, stats[1]);
    assert_eq!(r[1].unique_defs, 0);
    assert!(file_rows(&vec![], &stats, &l.rows).is_empty());
    assert_eq!(file_rows(&vec![2], &stats, &l.rows), vec![r[1]]);
    assert_eq!(average_len(&stats, &Kept::nothing()), (4, 2));
    assert_eq!(average_len(&vec![], &Kept::nothing()), (0, 1));
    let mut kept = Kept::nothing();
    kept.tokens = 11;
    kept.files = 3;
    assert_eq!(average_len(&stats, &kept), (15, 5));
    assert_eq!(average_len(&vec![], &kept), (11, 3));
}

fn entry(key: u64, text: &str) -> PhraseEntry {
    PhraseEntry { key, text: text.to_string(), seen: 1 }
}

#[test]
fn phrases_keep_their_numbers() {
    let entries = vec![entry(9, "delta"), entry(8, "alpha"), entry(7, "gamma"), entry(6, "beta")];
    let known = TextMap::from_entries(vec![("gamma".to_string(), 2i64), ("zeta".to_string(), 5)]);
    let l = number_phrases(&entries, &known, 5);
    let rows: Vec<(i64, u64, &str, bool)> =
        l.phrases.iter().map(|p| (p.id, p.key, p.text.as_str(), p.is_new)).collect();
    assert_eq!(
        rows,
        vec![
            (6, 8, "alpha", true),
            (7, 6, "beta", true),
            (8, 9, "delta", true),
            (2, 7, "gamma", false)
        ]
    );
    assert_eq!(l.ids[&7], 2);
    assert_eq!(l.ids[&9], 8);
    let twice = vec![entry(1, "gamma"), entry(2, "gamma")];
    let l = number_phrases(&twice, &known, 5);
    let ids: Vec<i64> = l.phrases.iter().map(|p| p.id).collect();
    assert_eq!(ids, vec![2, 6]);
}

fn read(file: i64, name: &str, text: &str) -> WorkerResult {
    let mut w = WorkerResult::new(false);
    w.index_file(file, name, text);
    w
}

/// The words by their numbers, what the rows hold of them, and the lengths of the files.
#[derive(Default)]
struct Stored {
    names: Vec<(i64, String)>,
    rows: Vec<((i64, i64), u32, usize)>,
    lens: Vec<(i64, usize)>,
}

impl Stored {
    fn store(&mut self, changed: &[i64], l: &Layout, stats: &[FileStats]) {
        self.rows.retain(|r| !changed.contains(&r.0 .1));
        self.lens.retain(|r| !changed.contains(&r.0));
        for p in l.list.phrases.iter().filter(|p| p.is_new) {
            self.names.push((p.id, p.text.clone()));
        }
        for r in &l.rows {
            self.rows.push((r.key, r.entry.count, r.entry.first_line));
        }
        for s in stats {
            self.lens.push((s.file, s.token_len));
        }
    }

    fn kept(&self, changed: &[i64]) -> Kept {
        let mut kept = Kept::nothing();
        for (id, text) in &self.names {
            kept.phrases.insert(text.clone(), *id);
            kept.max_id = kept.max_id.max(*id);
        }
        for (key, _, _) in self.rows.iter().filter(|r| !changed.contains(&r.0 .1)) {
            *kept.rows.entry(key.0).or_insert(0) += 1;
        }
        for (_, len) in self.lens.iter().filter(|l| !changed.contains(&l.0)) {
            kept.tokens += *len as u64;
            kept.files += 1;
        }
        kept
    }

    fn facts(&self) -> Vec<(String, i64, u32, usize)> {
        let mut facts: Vec<(String, i64, u32, usize)> = self
            .rows
            .iter()
            .map(|(key, count, line)| {
                let names: Vec<&(i64, String)> =
                    self.names.iter().filter(|n| n.0 == key.0).collect();
                assert_eq!(names.len(), 1);
                (names[0].1.clone(), key.1, *count, *line)
            })
            .collect();
        facts.sort();
        facts
    }
}

#[test]
fn reading_the_changed_files_is_reading_all() {
    let texts = ["alpha beta\nbeta", "delta alpha", "gamma gamma\nalpha"];
    let changed_text = "beta\nomega alpha\nomega";
    let mut all = Merged::new();
    for (i, text) in texts.iter().enumerate() {
        all.absorb(read(i as i64 + 1, "f", text));
    }
    let stats = all.stats.clone();
    let first = lay_out(all, &vec![], &Kept::nothing());
    let mut index = Stored::default();
    index.store(&[], &first, &stats);

    let kept = index.kept(&[2]);
    let mut some = Merged::new();
    some.absorb(read(2, "f", changed_text));
    let stats = some.stats.clone();
    assert_eq!(average_len(&stats, &kept), (7, 3));
    let second = lay_out(some, &vec![], &kept);
    assert_eq!(
        numbered(&second),
        vec![(1, "alpha", false), (2, "beta", false), (5, "omega", true)]
    );
    let dfs: Vec<(i64, u32)> = second.rows.iter().map(|r| (r.key.0, r.df)).collect();
    assert_eq!(dfs, vec![(1, 3), (2, 2), (5, 1)]);
    index.store(&[2], &second, &stats);

    let mut anew = Merged::new();
    for (i, text) in [texts[0], changed_text, texts[2]].iter().enumerate() {
        anew.absorb(read(i as i64 + 1, "f", text));
    }
    let stats = anew.stats.clone();
    let mut fresh = Stored::default();
    fresh.store(&[], &lay_out(anew, &vec![], &Kept::nothing()), &stats);
    assert_eq!(index.facts(), fresh.facts());
    index.lens.sort();
    assert_eq!(index.lens, fresh.lens);
    assert!(index.facts().contains(&("omega".to_string(), 2, 2, 1)));
}

#[test]
fn directories_are_skipped() {
    for name in ["node_modules", "vendor", "target", "dist", "build", "env", "coverage", "__pycache__"] {
        assert!(!keep_entry(Some(name)), "{}", name);
    }
    assert!(!keep_entry(Some(".git")));
    assert!(!keep_entry(Some(".anything")));
    assert!(keep_entry(Some("src")));
    assert!(keep_entry(Some("main.rs")));
    assert!(keep_entry(None));
}

fn found(name: &str, extension: Option<&str>, path: &str) -> FoundFile {
    FoundFile {
        name: name.to_string(),
        extension: extension.map(|e| e.to_string()),
        path: path.to_string(),
    }
}

#[test]
fn source_files_are_told_by_extension() {
    assert!(is_source_file(&found("a.rs", Some("rs"), "a.rs")));
    assert!(is_source_file(&found("A.RS", Some("RS"), "A.RS")));
    assert!(is_source_file(&found("x.dockerfile", Some("dockerfile"), "x.dockerfile")));
    assert!(!is_source_file(&found("a.png", Some("png"), "a.png")));
    assert!(is_source_file(&found("Makefile", None, "Makefile")));
    assert!(is_source_file(&found("GNUmakefile", None, "GNUmakefile")));
    assert!(is_source_file(&found("Dockerfile", None, "deploy/Dockerfile")));
    assert!(is_source_file(&found("head.S", Some("S"), "boot/head.S")));
    assert!(is_source_file(&found("board.dts", Some("dts"), "boot/board.dts")));
    assert!(is_source_file(&found("board.dtsi", Some("dtsi"), "boot/board.dtsi")));
    assert!(!is_source_file(&found("LICENSE", None, "LICENSE")));
    assert!(!is_source_file(&found("Cargo.lock", Some("lock"), "Cargo.lock")));
    assert!(!is_source_file(&found("package-lock.json", Some("json"), "package-lock.json")));
    assert!(!is_source_file(&found("go.sum", Some("sum"), "go.sum")));
}

#[test]
fn source_files_are_listed_in_order() {
    let all = vec![
        found("b.rs", Some("rs"), "src\\b.rs"),
        found("x.bin", Some("bin"), "x.bin"),
        found("a.py", Some("py"), "a.py"),
        found("yarn.lock", Some("lock"), "yarn.lock"),
        found("a.rs", Some("rs"), "src/a.rs"),
        found("b.rs", Some("rs"), "src/b.rs"),
    ];
    assert_eq!(source_files(&all), vec!["a.py", "src/a.rs", "src/b.rs"]);
    assert_eq!(
        sorted(vec!["b".to_string(), "a".to_string(), "b".to_string()]),
        vec!["a", "b", "b"]
    );
}

#[test]
fn files_keep_their_numbers() {
    let files: Vec<String> = ["a", "b", "c", "d"].iter().map(|s| s.to_string()).collect();
    let all: Vec<i64> = number_all(&files).iter().map(|f| f.0).collect();
    assert_eq!(all, vec![1, 2, 3, 4]);
    let existing = TextMap::from_entries(vec![("b".to_string(), 7i64), ("d".to_string(), 2)]);
    let r = number_files(&files, &existing, 7);
    assert_eq!(
        r,
        vec![
            (8, "a".to_string()),
            (7, "b".to_string()),
            (9, "c".to_string()),
            (2, "d".to_string())
        ]
    );
}

#[test]
fn work_is_shared_out() {
    assert_eq!(chunk_size(100, 8), 12);
    assert_eq!(chunk_size(3, 8), 1);
    assert_eq!(chunk_size(0, 0), 1);
    assert_eq!(chunk_size(5, 0), 5);
    assert!(samples_contexts(5000));
    assert!(!samples_contexts(5001));
    assert!(analyzes(4999));
    assert!(!analyzes(5000));
    assert_eq!(count_phrases(Some(3), Some(9)), 3);
    assert_eq!(count_phrases(Some(0), Some(9)), 9);
    assert_eq!(count_phrases(None, Some(9)), 9);
    assert_eq!(count_phrases(Some(0), None), 0);
    assert_eq!(count_phrases(None, None), 0);
}

#[test]
fn builds_are_full_or_incremental() {
    assert_eq!(build_kind(true, true, 0, 10), BuildKind::UpToDate);
    assert_eq!(build_kind(false, true, 0, 10), BuildKind::Full);
    assert_eq!(build_kind(true, false, 0, 10), BuildKind::Full);
    assert_eq!(build_kind(true, true, 2, 10), BuildKind::Incremental);
    assert_eq!(build_kind(true, true, 3, 10), BuildKind::Full);
    assert_eq!(build_kind(true, true, 1, 3), BuildKind::Full);
    assert_eq!(build_kind(true, true, 1, 4), BuildKind::Incremental);
    for files in 1..200usize {
        for changed in 1..=files {
            let by_float = changed as f64 >= files as f64 * 0.3;
            assert_eq!(build_kind(true, true, changed, files) == BuildKind::Full, by_float);
        }
    }
}

#[test]
fn a_second_build_finds_nothing_stale() {
    let visits = [("a", (5u64, 0u32)), ("b", (6, 1)), ("c", (7, 2))];
    let mut first = ChangePlan::new(TextMap::new(), TextMap::new());
    for (rel, mtime) in visits {
        first.visit_first(rel, mtime);
    }
    assert_eq!(first.changed.len(), 3);
    assert_eq!(first.changed[0], ("a".to_string(), String::new()));
    for (rel, _) in visits {
        first.read(rel.to_string(), content_digest(rel.as_bytes()));
    }
    let digests = digests_to_json(&first.digests);
    let mtimes = mtimes_to_json(&first.mtimes);
    let mut second = ChangePlan::new(read_digests(&digests), read_mtimes(&mtimes));
    for (rel, mtime) in visits {
        assert!(!second.visit(rel, mtime));
    }
    assert!(second.changed.is_empty());
    assert_eq!(second.digests.get("b"), Some(&content_digest(b"b")));
    assert_eq!(build_kind(true, true, second.changed.len(), 3), BuildKind::UpToDate);
}

#[test]
fn touched_and_unknown_files_are_stale() {
    let cached = TextMap::from_entries(vec![("a".to_string(), "d".to_string())]);
    let mtimes = TextMap::from_entries(vec![("a".to_string(), (5u64, 0u32)), ("b".to_string(), (6, 0))]);
    let mut p = ChangePlan::new(cached, mtimes);
    assert!(p.visit("a", (5, 1)));
    p.hashed("a", "e".to_string());
    assert!(p.visit("b", (6, 0)));
    assert!(p.visit("c", (1, 0)));
    assert_eq!(p.changed, vec![("a".to_string(), "e".to_string())]);
    assert_eq!(p.digests.get("a"), Some(&"e".to_string()));
    assert_eq!(p.digests.get("b"), None);
    assert_eq!(p.mtimes.get("a"), Some(&(5, 1)));
}

#[test]
fn a_touched_file_that_holds_what_it_held_is_unchanged() {
    let cached = TextMap::from_entries(vec![
        ("a".to_string(), content_digest(b"one")),
        ("b".to_string(), content_digest(b"two")),
    ]);
    let mtimes = TextMap::from_entries(vec![
        ("a".to_string(), (5u64, 0u32)),
        ("b".to_string(), (6, 0)),
    ]);
    let mut p = ChangePlan::new(cached, mtimes);
    assert!(p.visit("a", (7, 0)));
    p.hashed("a", content_digest(b"one"));
    assert!(!p.visit("b", (6, 0)));
    assert!(p.changed.is_empty());
    assert_eq!(p.digests.get("a"), Some(&content_digest(b"one")));
    assert_eq!(p.mtimes.get("a"), Some(&(7, 0)));
    assert_eq!(build_kind(true, true, p.changed.len(), 2), BuildKind::UpToDate);
}

#[test]
fn caches_are_read_back() {
    let mut m: TextMap<String> = TextMap::new();
    m.insert("src/\"quoted\".rs".to_string(), "ab\\c\n\u{fc}".to_string());
    m.insert("b".to_string(), String::new());
    let back = read_digests(&digests_to_json(&m));
    assert_eq!(back.entries.len(), 2);
    assert_eq!(back.get("src/\"quoted\".rs"), Some(&"ab\\c\n\u{fc}".to_string()));
    assert_eq!(back.get("b"), Some(&String::new()));
    assert_eq!(read_digests("{\"x\":\"y\"}").get("x"), Some(&"y".to_string()));
    assert!(read_digests("not json").is_empty());
    assert!(read_digests("{\"x\":1}").is_empty());
    let t = TextMap::from_entries(vec![("a".to_string(), (u64::MAX, u32::MAX))]);
    let json = mtimes_to_json(&t);
    assert_eq!(json, "{\"a\":[18446744073709551615,4294967295]}");
    assert_eq!(read_mtimes(&json).get("a"), Some(&(u64::MAX, u32::MAX)));
    assert!(read_mtimes("[]").is_empty());
}

#[test]
fn contexts_add_up() {
    let mut t = ContextTable::new();
    t.add("a".to_string(), "fn".to_string(), 1);
    t.add("a".to_string(), "let".to_string(), 2);
    t.add("a".to_string(), "fn".to_string(), 3);
    t.add("b".to_string(), "fn".to_string(), 1);
    assert_eq!(t.entries[0].phrase, "a");
    assert_eq!(t.entries[0].counts, vec![("fn".to_string(), 4), ("let".to_string(), 2)]);
    assert_eq!(t.entries[1].phrase, "b");
    t.add("b".to_string(), "fn".to_string(), u32::MAX);
    assert_eq!(t.entries[1].counts, vec![("fn".to_string(), u32::MAX)]);
}

#[test]
fn words_before_a_place() {
    assert_eq!(word_before("pub fn name", 7), Some("fn".to_string()));
    assert_eq!(word_before("  name", 2), None);
    assert_eq!(word_before("gr\u{fc}n!name", 6), Some("gr\u{fc}n!".to_string()));
    assert_eq!(word_before(&format!("{} x", "y".repeat(31)), 32), Some("y".repeat(30)));
}

#[test]
fn phrases_with_one_hash_count_together() {
    let mut w = WorkerResult::new(true);
    w.record_site(1, "fn one two", 4, 0, 3, "one", 77);
    w.record_site(1, "fn one two", 4, 0, 7, "two", 77);
    w.record_site(2, "fn two", 9, 0, 3, "two", 77);
    assert_eq!(w.tables.phrases.len(), 1);
    assert_eq!(w.tables.phrases[0].text, "one");
    assert_eq!(w.tables.phrases[0].seen, 3);
    assert_eq!(w.tables.seen(77), 3);
    assert_eq!(w.tables.seen(78), 0);
    let mut m = Merged::new();
    m.absorb(w);
    let n = m.left_ctx.entries.len();
    let l = lay_out(m, &vec![None; n], &Kept::nothing());
    let rows: Vec<((i64, i64), u32, usize)> =
        l.rows.iter().map(|r| (r.key, r.entry.count, r.entry.first_line)).collect();
    assert_eq!(rows, vec![((1, 1), 2, 4), ((1, 2), 1, 9)]);
}
