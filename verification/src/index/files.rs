//! Which files of a repository are indexed, and the numbers that they get.

use vstd::prelude::*;

use crate::order::{
    arranges, lemma_reordered_contains, lemma_text_irreflexive, lemma_text_transitive, reordered, sort,
    text_before, ByText, Ranking,
};
use crate::text::{
    ends_with, lowercase, replace_char, starts_with, str_eq, to_lowercase, views, with_char,
};
use crate::text_map::TextMap;

verus! {

broadcast use vstd::seq::group_seq_axioms;

// ---------------------------------------------------------------------------------------------
// Which files
// ---------------------------------------------------------------------------------------------
/// The names of directories with nothing of interest in them.
pub open spec fn is_skipped_name(n: Seq<char>) -> bool {
    ||| n == ".git"@
    ||| n == "node_modules"@
    ||| n == "vendor"@
    ||| n == "dist"@
    ||| n == "build"@
    ||| n == "target"@
    ||| n == ".venv"@
    ||| n == "__pycache__"@
    ||| n == ".next"@
    ||| n == ".tox"@
    ||| n == ".eggs"@
    ||| n == "env"@
    ||| n == ".env"@
    ||| n == "coverage"@
    ||| n == ".reliary"@
    ||| n == ".stria"@
    ||| n == ".gitlab"@
    ||| n == ".circleci"@
    ||| n == ".github"@
}

/// An entry of a directory is walked into or looked at unless its name is one of those skipped, or
/// starts with a dot. One whose name is no text is kept.
pub open spec fn is_kept(name: Option<Seq<char>>) -> bool {
    match name {
        Some(n) => !is_skipped_name(n) && !"."@.is_prefix_of(n),
        None => true,
    }
}

/// Whether an entry of a directory is walked into or looked at.
pub fn keep_entry(name: Option<&str>) -> (r: bool)
    ensures
        r == is_kept(
            match name {
                Some(n) => Some(n@),
                None => None,
            },
        ),
{
    match name {
        Some(n) => {
            let skipped = str_eq(n, ".git") || str_eq(n, "node_modules") || str_eq(n, "vendor")
                || str_eq(n, "dist") || str_eq(n, "build") || str_eq(n, "target") || str_eq(
                n,
                ".venv",
            ) || str_eq(n, "__pycache__") || str_eq(n, ".next") || str_eq(n, ".tox") || str_eq(
                n,
                ".eggs",
            ) || str_eq(n, "env") || str_eq(n, ".env") || str_eq(n, "coverage") || str_eq(
                n,
                ".reliary",
            ) || str_eq(n, ".stria") || str_eq(n, ".gitlab") || str_eq(n, ".circleci") || str_eq(
                n,
                ".github",
            );
            !skipped && !starts_with(n, ".")
        },
        None => true,
    }
}

/// The names of files in which package managers keep what they resolved.
pub open spec fn is_lock_file(n: Seq<char>) -> bool {
    ||| n == "package-lock.json"@
    ||| n == "yarn.lock"@
    ||| n == "pnpm-lock.yaml"@
    ||| n == "Cargo.lock"@
    ||| n == "go.sum"@
    ||| n == "Gemfile.lock"@
    ||| n == "poetry.lock"@
    ||| n == "Pipfile.lock"@
    ||| n == "composer.lock"@
    ||| n == "bun.lockb"@
}

/// Whether a file of this name holds what a package manager resolved.
pub fn lock_file(n: &str) -> (r: bool)
    ensures
        r == is_lock_file(n@),
{
    str_eq(n, "package-lock.json") || str_eq(n, "yarn.lock") || str_eq(n, "pnpm-lock.yaml")
        || str_eq(n, "Cargo.lock") || str_eq(n, "go.sum") || str_eq(n, "Gemfile.lock") || str_eq(
        n,
        "poetry.lock",
    ) || str_eq(n, "Pipfile.lock") || str_eq(n, "composer.lock") || str_eq(n, "bun.lockb")
}

/// The extensions of source files, in lowercase and without their dot.
pub open spec fn is_source_ext(e: Seq<char>) -> bool {
    ||| e == "ts"@
    ||| e == "tsx"@
    ||| e == "js"@
    ||| e == "jsx"@
    ||| e == "go"@
    ||| e == "py"@
    ||| e == "rs"@
    ||| e == "c"@
    ||| e == "h"@
    ||| e == "cpp"@
    ||| e == "hpp"@
    ||| e == "java"@
    ||| e == "kt"@
    ||| e == "swift"@
    ||| e == "rb"@
    ||| e == "php"@
    ||| e == "scala"@
    ||| e == "clj"@
    ||| e == "erl"@
    ||| e == "hrl"@
    ||| e == "ex"@
    ||| e == "exs"@
    ||| e == "zig"@
    ||| e == "nim"@
    ||| e == "nix"@
    ||| e == "tcl"@
    ||| e == "elm"@
    ||| e == "hs"@
    ||| e == "ml"@
    ||| e == "mli"@
    ||| e == "fs"@
    ||| e == "v"@
    ||| e == "purs"@
    ||| e == "md"@
    ||| e == "rst"@
    ||| e == "txt"@
    ||| e == "yaml"@
    ||| e == "yml"@
    ||| e == "toml"@
    ||| e == "json"@
    ||| e == "html"@
    ||| e == "css"@
    ||| e == "sh"@
    ||| e == "bash"@
    ||| e == "zsh"@
    ||| e == "fish"@
    ||| e == "sql"@
    ||| e == "graphql"@
    ||| e == "proto"@
    ||| e == "lua"@
    ||| e == "makefile"@
    ||| e == "dockerfile"@
    ||| e == "s"@
    ||| e == "dts"@
    ||| e == "dtsi"@
}

/// Whether an extension, in lowercase and without its dot, is that of source files.
pub fn source_ext(e: &str) -> (r: bool)
    ensures
        r == is_source_ext(e@),
{
    str_eq(e, "ts") || str_eq(e, "tsx") || str_eq(e, "js") || str_eq(e, "jsx") || str_eq(e, "go")
        || str_eq(e, "py") || str_eq(e, "rs") || str_eq(e, "c") || str_eq(e, "h") || str_eq(
        e,
        "cpp",
    ) || str_eq(e, "hpp") || str_eq(e, "java") || str_eq(e, "kt") || str_eq(e, "swift") || str_eq(
        e,
        "rb",
    ) || str_eq(e, "php") || str_eq(e, "scala") || str_eq(e, "clj") || str_eq(e, "erl") || str_eq(
        e,
        "hrl",
    ) || str_eq(e, "ex") || str_eq(e, "exs") || str_eq(e, "zig") || str_eq(e, "nim") || str_eq(
        e,
        "nix",
    ) || str_eq(e, "tcl") || str_eq(e, "elm") || str_eq(e, "hs") || str_eq(e, "ml") || str_eq(
        e,
        "mli",
    ) || str_eq(e, "fs") || str_eq(e, "v") || str_eq(e, "purs") || str_eq(e, "md") || str_eq(
        e,
        "rst",
    ) || str_eq(e, "txt") || str_eq(e, "yaml") || str_eq(e, "yml") || str_eq(e, "toml") || str_eq(
        e,
        "json",
    ) || str_eq(e, "html") || str_eq(e, "css") || str_eq(e, "sh") || str_eq(e, "bash") || str_eq(
        e,
        "zsh",
    ) || str_eq(e, "fish") || str_eq(e, "sql") || str_eq(e, "graphql") || str_eq(e, "proto")
        || str_eq(e, "lua") || str_eq(e, "makefile") || str_eq(e, "dockerfile") || str_eq(e, "s")
        || str_eq(e, "dts") || str_eq(e, "dtsi")
}

/// A file name, in lowercase, is that of a makefile or of a container's build file.
pub open spec fn is_build_name(name: Seq<char>) -> bool {
    "makefile"@.is_suffix_of(name) || "dockerfile"@.is_suffix_of(name)
}

/// Whether a file name, in lowercase, is that of a makefile or of a container's build file.
pub fn build_name(name: &str) -> (r: bool)
    ensures
        r == is_build_name(name@),
{
    ends_with(name, "makefile") || ends_with(name, "dockerfile")
}

/// A file that a walk over the repository came to.
pub struct FoundFile {
    /// Its name.
    pub name: String,
    /// Its extension, without the dot, if it has one.
    pub extension: Option<String>,
    /// Its path from the root of the repository.
    pub path: String,
}

/// A file is a source file if it has the extension of one, or none and the name of a makefile or of
/// a container's build file, in whatever case, and is no lock file.
pub open spec fn is_source(f: FoundFile) -> bool {
    &&& !is_lock_file(f.name@)
    &&& match f.extension {
        Some(e) => is_source_ext(lowercase(e@)),
        None => is_build_name(lowercase(f.name@)),
    }
}

/// Whether a file is a source file.
pub fn is_source_file(f: &FoundFile) -> (r: bool)
    ensures
        r == is_source(*f),
{
    if lock_file(f.name.as_str()) {
        return false;
    }
    match &f.extension {
        Some(e) => source_ext(to_lowercase(e.as_str()).as_str()),
        None => build_name(to_lowercase(f.name.as_str()).as_str()),
    }
}

/// The paths of the source files among `found`, with slashes for backslashes.
pub open spec fn source_paths(found: Seq<FoundFile>) -> Seq<Seq<char>>
    decreases found.len(),
{
    if found.len() == 0 {
        Seq::empty()
    } else {
        let before = source_paths(found.drop_last());
        if is_source(found.last()) {
            before.push(with_char(found.last().path@, '\\', '/'))
        } else {
            before
        }
    }
}

/// No string comes after one that follows it.
pub open spec fn is_sorted(s: Seq<Seq<char>>) -> bool {
    forall|i: int, j: int|
        0 <= i < j < s.len() ==> text_before(#[trigger] s[i], #[trigger] s[j]) || s[i] == s[j]
}

/// Sorts strings.
pub fn sorted(texts: Vec<String>) -> (r: Vec<String>)
    ensures
        is_sorted(views(r@)),
        reordered(views(r@), views(texts@)),
{
    let n: usize = texts.len();
    let by = ByText { texts };
    let order = sort(&by, n);
    let mut r: Vec<String> = Vec::new();
    let mut i: usize = 0;
    while i < n
        invariant
            i <= n,
            n == by.texts@.len(),
            arranges(order@, 0, n as int),
            r@.len() == i,
            forall|k: int| 0 <= k < i ==> (#[trigger] r@[k])@ == by.texts@[order@[k] as int]@,
        decreases n - i,
    {
        r.push(by.texts[order[i]].clone());
        i += 1;
    }
    proof {
        let v = views(r@);
        let w = views(by.texts@);
        assert(arranges(order@, 0, w.len() as int));
        assert forall|k: int| 0 <= k < v.len() implies #[trigger] v[k] == w[order@[k] as int] by {
            assert(r@[k]@ == by.texts@[order@[k] as int]@);
        }
        assert forall|a: int, b: int| 0 <= a < b < v.len() implies text_before(
            #[trigger] v[a],
            #[trigger] v[b],
        ) || v[a] == v[b] by {
            assert(by.before(order@[a] as int, order@[b] as int));
        }
    }
    r
}

/// Every string comes before those that follow it, so that none occurs twice.
pub open spec fn is_strictly_sorted(s: Seq<Seq<char>>) -> bool {
    forall|i: int, j: int| 0 <= i < j < s.len() ==> text_before(#[trigger] s[i], #[trigger] s[j])
}

/// Keeps the first of equal strings that stand side by side.
fn without_repeats(texts: Vec<String>) -> (r: Vec<String>)
    requires
        is_sorted(views(texts@)),
    ensures
        is_strictly_sorted(views(r@)),
        views(r@).no_duplicates(),
        forall|t: Seq<char>| views(r@).contains(t) <==> views(texts@).contains(t),
{
    let ghost all = views(texts@);
    let mut r: Vec<String> = Vec::new();
    let mut i: usize = 0;
    assert(all.take(0) =~= Seq::<Seq<char>>::empty());
    assert(views(r@) =~= Seq::<Seq<char>>::empty());
    while i < texts.len()
        invariant
            i <= texts@.len(),
            all == views(texts@),
            is_sorted(all),
            is_strictly_sorted(views(r@)),
            r@.len() > 0 <==> i > 0,
            i > 0 ==> views(r@).last() == all[i - 1],
            forall|t: Seq<char>| views(r@).contains(t) <==> all.take(i as int).contains(t),
        decreases texts@.len() - i,
    {
        let ghost before = views(r@);
        let ghost seen = all.take(i as int);
        let ghost x = all[i as int];
        assert(all.take(i + 1) =~= seen.push(x));
        assert forall|t: Seq<char>| seen.push(x).contains(t) <==> seen.contains(t) || t == x by {
            lemma_push_contains(seen, x, t);
        }
        let again = i > 0 && str_eq(texts[i - 1].as_str(), texts[i].as_str());
        if again {
            assert(before[before.len() - 1] == x);
            assert(before.contains(x));
        } else {
            r.push(texts[i].clone());
            assert(views(r@) =~= before.push(x));
            assert forall|t: Seq<char>| views(r@).contains(t) <==> before.contains(t) || t == x by {
                lemma_push_contains(before, x, t);
            }
            assert forall|a: int, b: int| 0 <= a < b < views(r@).len() implies text_before(
                #[trigger] views(r@)[a],
                #[trigger] views(r@)[b],
            ) by {
                if b == before.len() {
                    let last = all[i - 1];
                    assert(text_before(last, x));
                    if a < before.len() - 1 {
                        assert(text_before(before[a], before[before.len() - 1]));
                        lemma_text_transitive(before[a], last, x);
                    }
                } else {
                    assert(text_before(before[a], before[b]));
                }
            }
        }
        assert forall|t: Seq<char>| views(r@).contains(t) <==> all.take(i + 1).contains(t) by {
            assert(before.contains(t) <==> seen.contains(t));
        }
        i += 1;
    }
    assert(all.take(i as int) =~= all);
    proof {
        let v = views(r@);
        assert forall|a: int, b: int| 0 <= a < v.len() && 0 <= b < v.len() && a != b implies v[a]
            != v[b] by {
            lemma_text_irreflexive(v[a]);
            if a < b {
                assert(text_before(v[a], v[b]));
            } else {
                assert(text_before(v[b], v[a]));
            }
        }
    }
    r
}

/// What a sequence with one more element holds.
proof fn lemma_push_contains(s: Seq<Seq<char>>, x: Seq<char>, t: Seq<char>)
    ensures
        s.push(x).contains(t) <==> s.contains(t) || t == x,
{
    if s.contains(t) {
        let k = choose|k: int| 0 <= k < s.len() && s[k] == t;
        assert(s.push(x)[k] == t);
    }
    if t == x {
        assert(s.push(x)[s.len() as int] == t);
    }
}

/// The files to index among those that a walk over the repository came to: the source files, their
/// paths sorted, each once.
pub fn source_files(found: &Vec<FoundFile>) -> (r: Vec<String>)
    ensures
        is_strictly_sorted(views(r@)),
        views(r@).no_duplicates(),
        forall|p: Seq<char>| views(r@).contains(p) <==> source_paths(found@).contains(p),
{
    let mut paths: Vec<String> = Vec::new();
    let mut i: usize = 0;
    assert(views(paths@) =~= Seq::<Seq<char>>::empty());
    while i < found.len()
        invariant
            i <= found@.len(),
            views(paths@) == source_paths(found@.take(i as int)),
        decreases found@.len() - i,
    {
        assert(found@.take(i + 1).drop_last() =~= found@.take(i as int));
        let ghost before = paths@;
        if is_source_file(&found[i]) {
            paths.push(replace_char(found[i].path.as_str(), '\\', '/'));
            assert(views(paths@) =~= views(before).push(with_char(found@[i as int].path@, '\\', '/')));
        }
        i += 1;
    }
    assert(found@.take(i as int) =~= found@);
    let ghost all = views(paths@);
    assert(all.len() == paths.len());
    let in_order = sorted(paths);
    proof {
        lemma_reordered_contains(views(in_order@), all);
    }
    without_repeats(in_order)
}

// ---------------------------------------------------------------------------------------------
// File numbers
// ---------------------------------------------------------------------------------------------
/// How many of the files have no number yet.
pub open spec fn new_files(files: Seq<Seq<char>>, existing: Map<Seq<char>, i64>) -> nat {
    files.filter(|f: Seq<char>| !existing.contains_key(f)).len()
}

/// The number of the file at `i`: the one that it has, or else the next one over `max_id` that is
/// not taken by a file before it.
pub open spec fn file_id(
    files: Seq<Seq<char>>,
    existing: Map<Seq<char>, i64>,
    max_id: int,
    i: int,
) -> int {
    if existing.contains_key(files[i]) {
        existing[files[i]] as int
    } else {
        max_id + 1 + new_files(files.take(i), existing)
    }
}

/// Numbers the files: those that have a number keep it, the others get the numbers over `max_id`
/// in order.
pub fn number_files(files: &Vec<String>, existing: &TextMap<i64>, max_id: i64) -> (r: Vec<
    (i64, String),
>)
    requires
        existing.wf(),
        max_id + files@.len() < i64::MAX,
    ensures
        r@.len() == files@.len(),
        forall|i: int|
            0 <= i < r@.len() ==> (#[trigger] r@[i]).0 == file_id(
                views(files@),
                existing@,
                max_id as int,
                i,
            ) && r@[i].1@ == files@[i]@,
{
    let mut r: Vec<(i64, String)> = Vec::new();
    let ghost all = views(files@);
    let ghost is_new = |f: Seq<char>| !existing@.contains_key(f);
    let mut next: i64 = max_id + 1;
    let mut i: usize = 0;
    proof {
        reveal(Seq::filter);
    }
    while i < files.len()
        invariant
            i <= files@.len(),
            existing.wf(),
            all == views(files@),
            is_new == (|f: Seq<char>| !existing@.contains_key(f)),
            max_id + files@.len() < i64::MAX,
            next == max_id + 1 + new_files(all.take(i as int), existing@),
            new_files(all.take(i as int), existing@) <= i,
            r@.len() == i,
            forall|k: int|
                0 <= k < i ==> (#[trigger] r@[k]).0 == file_id(all, existing@, max_id as int, k)
                    && r@[k].1@ == files@[k]@,
        decreases files@.len() - i,
    {
        proof {
            reveal(Seq::filter);
            assert(all.take(i + 1).drop_last() =~= all.take(i as int));
            assert(all[i as int] == files@[i as int]@);
        }
        match existing.get(files[i].as_str()) {
            Some(id) => {
                r.push((*id, files[i].clone()));
            },
            None => {
                r.push((next, files[i].clone()));
                next = next + 1;
            },
        }
        i += 1;
    }
    r
}

/// Numbers files of which none has a number yet: 1, 2, 3 and so on.
pub fn number_all(files: &Vec<String>) -> (r: Vec<(i64, String)>)
    requires
        files@.len() < i64::MAX,
    ensures
        r@.len() == files@.len(),
        forall|i: int|
            0 <= i < r@.len() ==> (#[trigger] r@[i]).0 == i + 1 && r@[i].1@ == files@[i]@,
{
    let mut r: Vec<(i64, String)> = Vec::new();
    let mut i: usize = 0;
    while i < files.len()
        invariant
            i <= files@.len() < i64::MAX,
            r@.len() == i,
            forall|k: int|
                0 <= k < i ==> (#[trigger] r@[k]).0 == k + 1 && r@[k].1@ == files@[k]@,
        decreases files@.len() - i,
    {
        r.push((i as i64 + 1, files[i].clone()));
        i += 1;
    }
    r
}

/// Files of which none has a number get 1, 2, 3 and so on.
pub proof fn law_first_numbers(files: Seq<Seq<char>>, i: int)
    requires
        0 <= i < files.len(),
    ensures
        file_id(files, Map::empty(), 0, i) == i + 1,
{
    lemma_all_new(files.take(i));
}

/// All files are new where none has a number.
proof fn lemma_all_new(files: Seq<Seq<char>>)
    ensures
        new_files(files, Map::empty()) == files.len(),
    decreases files.len(),
{
    reveal(Seq::filter);
    if files.len() > 0 {
        lemma_all_new(files.drop_last());
    }
}

/// No two files get the same number, as long as those that have numbers have different ones, none
/// over `max_id`.
pub proof fn law_file_ids_distinct(
    files: Seq<Seq<char>>,
    existing: Map<Seq<char>, i64>,
    max_id: int,
    i: int,
    j: int,
)
    requires
        forall|a: Seq<char>, b: Seq<char>|
            existing.contains_key(a) && existing.contains_key(b) && a != b ==> #[trigger] existing[a]
                != #[trigger] existing[b],
        forall|a: Seq<char>| #[trigger] existing.contains_key(a) ==> existing[a] <= max_id,
        0 <= i < j < files.len(),
        files[i] != files[j],
    ensures
        file_id(files, existing, max_id, i) != file_id(files, existing, max_id, j),
{
    if !existing.contains_key(files[i]) && !existing.contains_key(files[j]) {
        lemma_new_files_grow(files, existing, i, j);
    }
}

/// A file without a number comes between two positions, or at the first: there are more of them
/// before the second.
proof fn lemma_new_files_grow(
    files: Seq<Seq<char>>,
    existing: Map<Seq<char>, i64>,
    i: int,
    j: int,
)
    requires
        0 <= i < j <= files.len(),
        !existing.contains_key(files[i]),
    ensures
        new_files(files.take(i), existing) < new_files(files.take(j), existing),
    decreases j,
{
    reveal(Seq::filter);
    assert(files.take(j).drop_last() =~= files.take(j - 1));
    if j > i + 1 {
        lemma_new_files_grow(files, existing, i, j - 1);
    }
}

// ---------------------------------------------------------------------------------------------
// Workers
// ---------------------------------------------------------------------------------------------
/// How many files one worker reads: the files shared out evenly, and at least one.
pub open spec fn share(files: int, workers: int) -> int {
    if workers == 0 {
        if files == 0 {
            1
        } else {
            files
        }
    } else if files / workers == 0 {
        1
    } else {
        files / workers
    }
}

/// How many files one worker reads.
pub fn chunk_size(files: usize, workers: usize) -> (n: usize)
    ensures
        n == share(files as int, workers as int),
        n >= 1,
{
    let w: usize = if workers == 0 {
        1
    } else {
        workers
    };
    let n: usize = files / w;
    if n == 0 {
        1
    } else {
        n
    }
}

/// The repository is small enough to sample left contexts.
pub open spec fn allows_sampling(files: int) -> bool {
    files <= 5000
}

/// The repository is small enough to analyze the tables of its index.
pub open spec fn allows_analysis(files: int) -> bool {
    files < 5000
}

/// Whether left contexts are sampled: up to 5000 files.
pub fn samples_contexts(files: usize) -> (r: bool)
    ensures
        r == allows_sampling(files as int),
{
    files <= 5000
}

/// Whether the tables of the index are analyzed once they are filled: under 5000 files.
pub fn analyzes(files: usize) -> (r: bool)
    ensures
        r == allows_analysis(files as int),
{
    files < 5000
}

/// The number of phrases to report, from what the two tables count.
pub open spec fn reported_phrases(phrases: Option<i64>, in_occurrences: Option<i64>) -> int {
    if phrases is Some && phrases->0 > 0 {
        phrases->0 as int
    } else if in_occurrences is Some {
        in_occurrences->0 as int
    } else {
        0
    }
}

/// The number of phrases to report: what the table of phrases counts, or, where that is missing or
/// empty, what the table of occurrences does, or 0.
pub fn count_phrases(phrases: Option<i64>, in_occurrences: Option<i64>) -> (n: usize)
    requires
        phrases is Some ==> 0 <= phrases->0 <= usize::MAX,
        in_occurrences is Some ==> 0 <= in_occurrences->0 <= usize::MAX,
    ensures
        n == reported_phrases(phrases, in_occurrences),
{
    match phrases {
        Some(n) if n > 0 => n as usize,
        _ => match in_occurrences {
            Some(n) => n as usize,
            None => 0,
        },
    }
}

// ---------------------------------------------------------------------------------------------
// Laws
// ---------------------------------------------------------------------------------------------
/// The extensions of source files: those of the languages that are indexed, of their headers, of
/// configuration, markup, prose and scripts, and no others.
pub proof fn law_source_extensions(e: Seq<char>)
    ensures
        is_source_ext(e) <==> seq![
            "ts"@, "tsx"@, "js"@, "jsx"@, "go"@, "py"@, "rs"@, "c"@, "h"@, "cpp"@, "hpp"@, "java"@,
            "kt"@, "swift"@, "rb"@, "php"@, "scala"@, "clj"@, "erl"@, "hrl"@, "ex"@, "exs"@,
            "zig"@, "nim"@, "nix"@, "tcl"@, "elm"@, "hs"@, "ml"@, "mli"@, "fs"@, "v"@, "purs"@,
            "md"@, "rst"@, "txt"@, "yaml"@, "yml"@, "toml"@, "json"@, "html"@, "css"@, "sh"@,
            "bash"@, "zsh"@, "fish"@, "sql"@, "graphql"@, "proto"@, "lua"@, "makefile"@,
            "dockerfile"@, "s"@, "dts"@, "dtsi"@,
        ].contains(e),
{
    let t: Seq<Seq<char>> = seq![
        "ts"@, "tsx"@, "js"@, "jsx"@, "go"@, "py"@, "rs"@, "c"@, "h"@, "cpp"@, "hpp"@, "java"@,
        "kt"@, "swift"@, "rb"@, "php"@, "scala"@, "clj"@, "erl"@, "hrl"@, "ex"@, "exs"@, "zig"@,
        "nim"@, "nix"@, "tcl"@, "elm"@, "hs"@, "ml"@, "mli"@, "fs"@, "v"@, "purs"@, "md"@, "rst"@,
        "txt"@, "yaml"@, "yml"@, "toml"@, "json"@, "html"@, "css"@, "sh"@, "bash"@, "zsh"@,
        "fish"@, "sql"@, "graphql"@, "proto"@, "lua"@, "makefile"@, "dockerfile"@, "s"@, "dts"@,
        "dtsi"@,
    ];
    if is_source_ext(e) {
        lemma_source_extensions(e, t);
    }
}

/// What is listed is found in the table.
proof fn lemma_source_extensions(e: Seq<char>, t: Seq<Seq<char>>)
    requires
        is_source_ext(e),
        t == seq![
            "ts"@, "tsx"@, "js"@, "jsx"@, "go"@, "py"@, "rs"@, "c"@, "h"@, "cpp"@, "hpp"@, "java"@,
            "kt"@, "swift"@, "rb"@, "php"@, "scala"@, "clj"@, "erl"@, "hrl"@, "ex"@, "exs"@,
            "zig"@, "nim"@, "nix"@, "tcl"@, "elm"@, "hs"@, "ml"@, "mli"@, "fs"@, "v"@, "purs"@,
            "md"@, "rst"@, "txt"@, "yaml"@, "yml"@, "toml"@, "json"@, "html"@, "css"@, "sh"@,
            "bash"@, "zsh"@, "fish"@, "sql"@, "graphql"@, "proto"@, "lua"@, "makefile"@,
            "dockerfile"@, "s"@, "dts"@, "dtsi"@,
        ],
    ensures
        t.contains(e),
{
    if e == "ts"@ {
        assert(t[0] == e);
    }
    if e == "tsx"@ {
        assert(t[1] == e);
    }
    if e == "js"@ {
        assert(t[2] == e);
    }
    if e == "jsx"@ {
        assert(t[3] == e);
    }
    if e == "go"@ {
        assert(t[4] == e);
    }
    if e == "py"@ {
        assert(t[5] == e);
    }
    if e == "rs"@ {
        assert(t[6] == e);
    }
    if e == "c"@ {
        assert(t[7] == e);
    }
    if e == "h"@ {
        assert(t[8] == e);
    }
    if e == "cpp"@ {
        assert(t[9] == e);
    }
    if e == "hpp"@ {
        assert(t[10] == e);
    }
    if e == "java"@ {
        assert(t[11] == e);
    }
    if e == "kt"@ {
        assert(t[12] == e);
    }
    if e == "swift"@ {
        assert(t[13] == e);
    }
    if e == "rb"@ {
        assert(t[14] == e);
    }
    if e == "php"@ {
        assert(t[15] == e);
    }
    if e == "scala"@ {
        assert(t[16] == e);
    }
    if e == "clj"@ {
        assert(t[17] == e);
    }
    if e == "erl"@ {
        assert(t[18] == e);
    }
    if e == "hrl"@ {
        assert(t[19] == e);
    }
    if e == "ex"@ {
        assert(t[20] == e);
    }
    if e == "exs"@ {
        assert(t[21] == e);
    }
    if e == "zig"@ {
        assert(t[22] == e);
    }
    if e == "nim"@ {
        assert(t[23] == e);
    }
    if e == "nix"@ {
        assert(t[24] == e);
    }
    if e == "tcl"@ {
        assert(t[25] == e);
    }
    if e == "elm"@ {
        assert(t[26] == e);
    }
    if e == "hs"@ {
        assert(t[27] == e);
    }
    if e == "ml"@ {
        assert(t[28] == e);
    }
    if e == "mli"@ {
        assert(t[29] == e);
    }
    if e == "fs"@ {
        assert(t[30] == e);
    }
    if e == "v"@ {
        assert(t[31] == e);
    }
    if e == "purs"@ {
        assert(t[32] == e);
    }
    if e == "md"@ {
        assert(t[33] == e);
    }
    if e == "rst"@ {
        assert(t[34] == e);
    }
    if e == "txt"@ {
        assert(t[35] == e);
    }
    if e == "yaml"@ {
        assert(t[36] == e);
    }
    if e == "yml"@ {
        assert(t[37] == e);
    }
    if e == "toml"@ {
        assert(t[38] == e);
    }
    if e == "json"@ {
        assert(t[39] == e);
    }
    if e == "html"@ {
        assert(t[40] == e);
    }
    if e == "css"@ {
        assert(t[41] == e);
    }
    if e == "sh"@ {
        assert(t[42] == e);
    }
    if e == "bash"@ {
        assert(t[43] == e);
    }
    if e == "zsh"@ {
        assert(t[44] == e);
    }
    if e == "fish"@ {
        assert(t[45] == e);
    }
    if e == "sql"@ {
        assert(t[46] == e);
    }
    if e == "graphql"@ {
        assert(t[47] == e);
    }
    if e == "proto"@ {
        assert(t[48] == e);
    }
    if e == "lua"@ {
        assert(t[49] == e);
    }
    if e == "makefile"@ {
        assert(t[50] == e);
    }
    if e == "dockerfile"@ {
        assert(t[51] == e);
    }
    if e == "s"@ {
        assert(t[52] == e);
    }
    if e == "dts"@ {
        assert(t[53] == e);
    }
    if e == "dtsi"@ {
        assert(t[54] == e);
    }
}

/// The files in which package managers write down versions, and no others.
pub proof fn law_lock_files(n: Seq<char>)
    ensures
        is_lock_file(n) <==> seq![
            "package-lock.json"@, "yarn.lock"@, "pnpm-lock.yaml"@, "Cargo.lock"@, "go.sum"@,
            "Gemfile.lock"@, "poetry.lock"@, "Pipfile.lock"@, "composer.lock"@, "bun.lockb"@,
        ].contains(n),
{
    let t: Seq<Seq<char>> = seq![
        "package-lock.json"@, "yarn.lock"@, "pnpm-lock.yaml"@, "Cargo.lock"@, "go.sum"@,
        "Gemfile.lock"@, "poetry.lock"@, "Pipfile.lock"@, "composer.lock"@, "bun.lockb"@,
    ];
    if is_lock_file(n) {
        lemma_lock_files(n, t);
    }
}

/// What is listed is found in the table.
proof fn lemma_lock_files(n: Seq<char>, t: Seq<Seq<char>>)
    requires
        is_lock_file(n),
        t == seq![
            "package-lock.json"@, "yarn.lock"@, "pnpm-lock.yaml"@, "Cargo.lock"@, "go.sum"@,
            "Gemfile.lock"@, "poetry.lock"@, "Pipfile.lock"@, "composer.lock"@, "bun.lockb"@,
        ],
    ensures
        t.contains(n),
{
    if n == "package-lock.json"@ {
        assert(t[0] == n);
    }
    if n == "yarn.lock"@ {
        assert(t[1] == n);
    }
    if n == "pnpm-lock.yaml"@ {
        assert(t[2] == n);
    }
    if n == "Cargo.lock"@ {
        assert(t[3] == n);
    }
    if n == "go.sum"@ {
        assert(t[4] == n);
    }
    if n == "Gemfile.lock"@ {
        assert(t[5] == n);
    }
    if n == "poetry.lock"@ {
        assert(t[6] == n);
    }
    if n == "Pipfile.lock"@ {
        assert(t[7] == n);
    }
    if n == "composer.lock"@ {
        assert(t[8] == n);
    }
    if n == "bun.lockb"@ {
        assert(t[9] == n);
    }
}

/// The directories that are never walked into, and no others.
pub proof fn law_skipped_names(n: Seq<char>)
    ensures
        is_skipped_name(n) <==> seq![
            ".git"@, "node_modules"@, "vendor"@, "dist"@, "build"@, "target"@, ".venv"@,
            "__pycache__"@, ".next"@, ".tox"@, ".eggs"@, "env"@, ".env"@, "coverage"@, ".reliary"@,
            ".stria"@, ".gitlab"@, ".circleci"@, ".github"@,
        ].contains(n),
{
    let t: Seq<Seq<char>> = seq![
        ".git"@, "node_modules"@, "vendor"@, "dist"@, "build"@, "target"@, ".venv"@,
        "__pycache__"@, ".next"@, ".tox"@, ".eggs"@, "env"@, ".env"@, "coverage"@, ".reliary"@,
        ".stria"@, ".gitlab"@, ".circleci"@, ".github"@,
    ];
    if is_skipped_name(n) {
        lemma_skipped_names(n, t);
    }
}

/// What is listed is found in the table.
proof fn lemma_skipped_names(n: Seq<char>, t: Seq<Seq<char>>)
    requires
        is_skipped_name(n),
        t == seq![
            ".git"@, "node_modules"@, "vendor"@, "dist"@, "build"@, "target"@, ".venv"@,
            "__pycache__"@, ".next"@, ".tox"@, ".eggs"@, "env"@, ".env"@, "coverage"@, ".reliary"@,
            ".stria"@, ".gitlab"@, ".circleci"@, ".github"@,
        ],
    ensures
        t.contains(n),
{
    if n == ".git"@ {
        assert(t[0] == n);
    }
    if n == "node_modules"@ {
        assert(t[1] == n);
    }
    if n == "vendor"@ {
        assert(t[2] == n);
    }
    if n == "dist"@ {
        assert(t[3] == n);
    }
    if n == "build"@ {
        assert(t[4] == n);
    }
    if n == "target"@ {
        assert(t[5] == n);
    }
    if n == ".venv"@ {
        assert(t[6] == n);
    }
    if n == "__pycache__"@ {
        assert(t[7] == n);
    }
    if n == ".next"@ {
        assert(t[8] == n);
    }
    if n == ".tox"@ {
        assert(t[9] == n);
    }
    if n == ".eggs"@ {
        assert(t[10] == n);
    }
    if n == "env"@ {
        assert(t[11] == n);
    }
    if n == ".env"@ {
        assert(t[12] == n);
    }
    if n == "coverage"@ {
        assert(t[13] == n);
    }
    if n == ".reliary"@ {
        assert(t[14] == n);
    }
    if n == ".stria"@ {
        assert(t[15] == n);
    }
    if n == ".gitlab"@ {
        assert(t[16] == n);
    }
    if n == ".circleci"@ {
        assert(t[17] == n);
    }
    if n == ".github"@ {
        assert(t[18] == n);
    }
}

/// What is looked at in a directory: every name but those that start with a dot and those of the
/// directories that hold what was built, fetched or generated. A name that is no text is kept.
pub proof fn law_kept_names(n: Seq<char>)
    ensures
        is_kept(None),
        n.len() > 0 && n[0] == '.' ==> !is_kept(Some(n)),
        (n.len() == 0 || n[0] != '.') ==> (is_kept(Some(n)) <==> !seq![
            "node_modules"@, "vendor"@, "dist"@, "build"@, "target"@, "__pycache__"@, "env"@,
            "coverage"@,
        ].contains(n)),
{
    reveal_strlit(".");
    if n.len() > 0 && n[0] == '.' {
        assert("."@ =~= n.subrange(0, 1));
    }
    if "."@.is_prefix_of(n) {
        assert(n.subrange(0, 1)[0] == "."@[0]);
    }
    let t: Seq<Seq<char>> = seq![
        "node_modules"@, "vendor"@, "dist"@, "build"@, "target"@, "__pycache__"@, "env"@,
        "coverage"@,
    ];
    if n.len() == 0 || n[0] != '.' {
        reveal_strlit(".git");
        reveal_strlit(".venv");
        reveal_strlit(".next");
        reveal_strlit(".tox");
        reveal_strlit(".eggs");
        reveal_strlit(".env");
        reveal_strlit(".reliary");
        reveal_strlit(".stria");
        reveal_strlit(".gitlab");
        reveal_strlit(".circleci");
        reveal_strlit(".github");
        if is_skipped_name(n) {
            assert(t[0] == n || t[1] == n || t[2] == n || t[3] == n || t[4] == n || t[5] == n || t[6]
                == n || t[7] == n);
            assert(t.contains(n));
        }
    }
}

/// A file without an extension is source where its name ends with `makefile` or `dockerfile`, in any
/// case; one with an extension where that is listed, in any case. A lock file never is.
pub proof fn law_what_is_source(f: FoundFile)
    ensures
        is_lock_file(f.name@) ==> !is_source(f),
        !is_lock_file(f.name@) && f.extension is Some ==> (is_source(f) <==> is_source_ext(
            lowercase(f.extension->0@),
        )),
        !is_lock_file(f.name@) && f.extension is None ==> (is_source(f) <==> (exists|stem: Seq<char>|
            lowercase(f.name@) == #[trigger] (stem + "makefile"@)) || (exists|stem: Seq<char>|
            lowercase(f.name@) == #[trigger] (stem + "dockerfile"@))),
{
    let n = lowercase(f.name@);
    if "makefile"@.is_suffix_of(n) {
        let stem = n.take(n.len() - "makefile"@.len());
        assert(n =~= stem + "makefile"@);
    }
    if "dockerfile"@.is_suffix_of(n) {
        let stem = n.take(n.len() - "dockerfile"@.len());
        assert(n =~= stem + "dockerfile"@);
    }
    assert forall|stem: Seq<char>| n == #[trigger] (stem + "makefile"@) implies is_build_name(n) by {
        assert("makefile"@ =~= n.subrange(n.len() - "makefile"@.len(), n.len() as int));
    }
    assert forall|stem: Seq<char>| n == #[trigger] (stem + "dockerfile"@) implies is_build_name(
        n,
    ) by {
        assert("dockerfile"@ =~= n.subrange(n.len() - "dockerfile"@.len(), n.len() as int));
    }
}

/// The paths that are indexed are those of the source files that were found, with slashes, and of no
/// others, wherever among the others they were found.
pub proof fn law_source_paths(found: Seq<FoundFile>, more: Seq<FoundFile>, f: FoundFile)
    ensures
        source_paths(Seq::empty()).len() == 0,
        source_paths(found + more) == source_paths(found) + source_paths(more),
        is_source(f) ==> source_paths(seq![f]) == seq![with_char(f.path@, '\\', '/')],
        !is_source(f) ==> source_paths(seq![f]).len() == 0,
    decreases more.len(),
{
    reveal_with_fuel(source_paths, 2);
    assert(seq![f].drop_last() =~= Seq::<FoundFile>::empty());
    if is_source(f) {
        assert(source_paths(seq![f]) =~= seq![with_char(f.path@, '\\', '/')]);
    }
    if more.len() == 0 {
        assert(found + more =~= found);
        assert(source_paths(found + more) =~= source_paths(found) + source_paths(more));
    } else {
        law_source_paths(found, more.drop_last(), f);
        assert((found + more).drop_last() =~= found + more.drop_last());
        assert(source_paths(found + more) =~= source_paths(found) + source_paths(more));
    }
}

/// How numbers are given out: a file that has one keeps it, the first new one gets the number behind
/// the largest, and each further new one the number behind that of the new one before it.
pub proof fn law_numbers_given_out(
    files: Seq<Seq<char>>,
    existing: Map<Seq<char>, i64>,
    max_id: int,
    i: int,
    j: int,
)
    requires
        0 <= i < j < files.len(),
        !existing.contains_key(files[j]),
        forall|k: int| i < k < j ==> existing.contains_key(#[trigger] files[k]),
    ensures
        existing.contains_key(files[i]) ==> file_id(files, existing, max_id, i) == existing[files[i]],
        !existing.contains_key(files[i]) ==> file_id(files, existing, max_id, j) == file_id(
            files,
            existing,
            max_id,
            i,
        ) + 1,
        existing.contains_key(files[i]) && i == 0 ==> file_id(files, existing, max_id, j) == max_id + 1,
        !existing.contains_key(files[0]) ==> file_id(files, existing, max_id, 0) == max_id + 1,
{
    reveal(Seq::filter);
    assert(files.take(0) =~= Seq::<Seq<char>>::empty());
    lemma_known_between(files, existing, i + 1, j);
    assert(files.take(i + 1).drop_last() =~= files.take(i));
    assert(files.take(i + 1).last() == files[i]);
}

/// Files that have a number are not counted as new.
proof fn lemma_known_between(
    files: Seq<Seq<char>>,
    existing: Map<Seq<char>, i64>,
    i: int,
    j: int,
)
    requires
        0 <= i <= j <= files.len(),
        forall|k: int| i <= k < j ==> existing.contains_key(#[trigger] files[k]),
    ensures
        new_files(files.take(i), existing) == new_files(files.take(j), existing),
    decreases j - i,
{
    reveal(Seq::filter);
    if i < j {
        lemma_known_between(files, existing, i, j - 1);
        assert(files.take(j).drop_last() =~= files.take(j - 1));
        assert(files.take(j).last() == files[j - 1]);
    }
}

/// Each worker gets as many files as there are for each, rounded down, but never none: that many for
/// each worker are no more than all, and one more for each would be too many. Without workers one
/// gets all.
pub proof fn law_share_is_fair(files: int, workers: int)
    requires
        0 <= files,
        0 <= workers,
    ensures
        share(files, workers) >= 1,
        workers > 0 && files >= workers ==> share(files, workers) * workers <= files < (share(
            files,
            workers,
        ) + 1) * workers,
        workers > 0 && files < workers ==> share(files, workers) == 1,
        workers == 0 && files > 0 ==> share(files, workers) == files,
{
    if workers > 0 {
        let q = files / workers;
        assert(q * workers <= files < (q + 1) * workers && q >= 0) by (nonlinear_arith)
            requires
                workers > 0,
                files >= 0,
                q == files / workers,
        ;
        if files >= workers {
            assert(q >= 1) by (nonlinear_arith)
                requires
                    files < (q + 1) * workers,
                    files >= workers,
                    workers > 0,
            ;
        } else {
            assert(q == 0) by (nonlinear_arith)
                requires
                    q * workers <= files,
                    files < workers,
                    workers > 0,
                    q >= 0,
            ;
        }
    }
}

/// In a sorted list no text stands behind one that it comes before, and in a strictly sorted one none
/// occurs twice besides.
pub proof fn law_sorted_texts(s: Seq<Seq<char>>, i: int, j: int)
    requires
        is_sorted(s),
        0 <= i < j < s.len(),
    ensures
        !text_before(s[j], s[i]),
        is_strictly_sorted(s) ==> s[i] != s[j],
{
    assert(text_before(s[i], s[j]) || s[i] == s[j]);
    lemma_text_irreflexive(s[i]);
    if text_before(s[j], s[i]) && text_before(s[i], s[j]) {
        lemma_text_transitive(s[i], s[j], s[i]);
    }
    if is_strictly_sorted(s) {
        assert(text_before(s[i], s[j]));
    }
}

/// Five thousand files are the most that contexts are sampled for, and one too many for an analysis.
pub proof fn law_size_limits(files: int)
    ensures
        allows_sampling(files) <==> files < 5001,
        allows_analysis(files) <==> files + 1 <= 5000,
        allows_analysis(files) ==> allows_sampling(files),
{
}

/// The table of phrases is believed where it counts any; the table of occurrences only where it does
/// not.
pub proof fn law_reported_phrases(n: i64, m: i64)
    ensures
        n > 0 ==> reported_phrases(Some(n), Some(m)) == n && reported_phrases(Some(n), None) == n,
        n <= 0 ==> reported_phrases(Some(n), Some(m)) == m && reported_phrases(Some(n), None) == 0,
        reported_phrases(None, Some(m)) == m,
        reported_phrases(None, None) == 0,
{
}

} // verus!
