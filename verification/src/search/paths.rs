//! What the path of a file says about it.

use vstd::prelude::*;

use crate::text::{
    before_last, contains, ends_with, last_index, law_last_index_parts, law_occurs_is_found, lowercase,
    occurs, occurs_at, replace_char, starts_with,
    to_lowercase, views, with_char,
};

verus! {

broadcast use vstd::seq::group_seq_axioms;

/// The weight of a file by the role that its path gives it, in hundredths: source files count
/// double, tests and scripts less, vendored files and prose least. Backslashes count as slashes.
pub open spec fn role_percent(path: Seq<char>) -> int {
    let p = with_char(path, '\\', '/');
    if occurs(p, "/src/"@) || "src/"@.is_prefix_of(p) {
        200
    } else if occurs(p, "/test"@) || occurs(p, "/spec"@) || "test"@.is_prefix_of(p)
        || "spec"@.is_prefix_of(p) {
        60
    } else if occurs(p, "/deps/"@) || occurs(p, "/vendor/"@) || "vendor/"@.is_prefix_of(p)
        || "deps/"@.is_prefix_of(p) {
        30
    } else if occurs(p, "/scripts/"@) || "scripts/"@.is_prefix_of(p) {
        60
    } else if ".md"@.is_suffix_of(p) || ".rst"@.is_suffix_of(p) || ".txt"@.is_suffix_of(p) {
        25
    } else {
        100
    }
}

/// The weight of a file by the role that its path gives it, in hundredths.
pub fn path_role_mult(file_path: &str) -> (r: u32)
    ensures
        r == role_percent(file_path@),
{
    let fp = replace_char(file_path, '\\', '/');
    let p = fp.as_str();
    if contains(p, "/src/") || starts_with(p, "src/") {
        200
    } else if contains(p, "/test") || contains(p, "/spec") || starts_with(p, "test") || starts_with(
        p,
        "spec",
    ) {
        60
    } else if contains(p, "/deps/") || contains(p, "/vendor/") || starts_with(p, "vendor/")
        || starts_with(p, "deps/") {
        30
    } else if contains(p, "/scripts/") || starts_with(p, "scripts/") {
        60
    } else if ends_with(p, ".md") || ends_with(p, ".rst") || ends_with(p, ".txt") {
        25
    } else {
        100
    }
}

/// The path `p` names the term `t`: it holds it, or holds it with hyphens for underscores or
/// underscores for hyphens.
pub open spec fn names_as_written(p: Seq<char>, t: Seq<char>) -> bool {
    occurs(p, t) || occurs(p, with_char(t, '_', '-')) || occurs(p, with_char(t, '-', '_'))
}

/// Whether a path names a term, written as they are.
pub fn names_term(path: &str, term: &str) -> (r: bool)
    ensures
        r == names_as_written(path@, term@),
{
    contains(path, term) || contains(path, replace_char(term, '_', '-').as_str()) || contains(
        path,
        replace_char(term, '-', '_').as_str(),
    )
}

/// The path names the term, in whatever case both are written.
pub open spec fn names(path: Seq<char>, term: Seq<char>) -> bool {
    names_as_written(lowercase(path), lowercase(term))
}

/// How many of the terms the path names.
pub open spec fn named(path: Seq<char>, terms: Seq<Seq<char>>) -> nat {
    terms.filter(|t: Seq<char>| names(path, t)).len()
}

/// How many of the terms of a query the path of a file names.
pub fn filename_coverage(file_path: &str, raw_terms: &Vec<String>) -> (n: usize)
    ensures
        n == named(file_path@, views(raw_terms@)),
        n <= raw_terms@.len(),
{
    let fp = to_lowercase(file_path);
    let p = fp.as_str();
    let ghost all = views(raw_terms@);
    let mut n: usize = 0;
    let mut i: usize = 0;
    proof {
        reveal(Seq::filter);
    }
    while i < raw_terms.len()
        invariant
            i <= raw_terms@.len(),
            all == views(raw_terms@),
            p@ == lowercase(file_path@),
            n <= i,
            n == named(file_path@, all.take(i as int)),
        decreases raw_terms@.len() - i,
    {
        proof {
            reveal(Seq::filter);
            assert(all.take(i + 1).drop_last() =~= all.take(i as int));
            assert(all[i as int] == raw_terms@[i as int]@);
        }
        if names_term(p, to_lowercase(raw_terms[i].as_str()).as_str()) {
            n += 1;
        }
        i += 1;
    }
    assert(all.take(i as int) =~= all);
    n
}

/// The directory that a file stands in, or nothing for one at the root.
pub open spec fn directory(path: Seq<char>) -> Seq<char> {
    if last_index(path, '/') >= 0 {
        path.take(last_index(path, '/'))
    } else {
        Seq::empty()
    }
}

/// The directory that a file stands in, by which files are scored as a cluster.
pub fn file_module(file_path: &str) -> (r: String)
    ensures
        r@ == directory(file_path@),
{
    match before_last(file_path, '/') {
        Some(d) => d,
        None => {
            let r = String::new();
            assert(r@ =~= Seq::<char>::empty());
            r
        },
    }
}

/// A backslash counts as a slash: the role of a path is that of the path with slashes.
pub proof fn law_role_ignores_separators(path: Seq<char>)
    ensures
        role_percent(path) == role_percent(with_char(path, '\\', '/')),
{
    assert(with_char(with_char(path, '\\', '/'), '\\', '/') =~= with_char(path, '\\', '/'));
}

/// `p` is the path with a slash for each backslash.
pub open spec fn is_slashed(p: Seq<char>, path: Seq<char>) -> bool {
    &&& p.len() == path.len()
    &&& forall|i: int|
        0 <= i < path.len() ==> #[trigger] p[i] == if path[i] == '\\' {
            '/'
        } else {
            path[i]
        }
}

/// Some directory on the path, or its first part, starts with `name`.
pub open spec fn has_part(p: Seq<char>, name: Seq<char>) -> bool {
    ||| name.is_prefix_of(p)
    ||| exists|before: Seq<char>, behind: Seq<char>| p == #[trigger] (before + ("/"@ + name) + behind)
}

/// A part of a path is found at its start or behind a slash.
proof fn lemma_has_part(p: Seq<char>, name: Seq<char>, slashed: Seq<char>)
    requires
        slashed == "/"@ + name,
    ensures
        has_part(p, name) == (occurs(p, slashed) || name.is_prefix_of(p)),
{
    law_occurs_is_found(p, slashed);
}

/// What the weights say of a path. One under a source directory counts double and nothing else does;
/// a test or a specification that is under none counts 60, whatever else its path holds; a vendored
/// file that is neither counts 30; a script that is none of these counts 60 as well; of the rest,
/// prose counts 25 and everything else 100.
pub proof fn law_role_weights(path: Seq<char>, p: Seq<char>)
    requires
        is_slashed(p, path),
    ensures
        role_percent(path) == 200 <==> has_part(p, "src/"@),
        !has_part(p, "src/"@) && (has_part(p, "test"@) || has_part(p, "spec"@)) ==> role_percent(path)
            == 60,
        role_percent(path) == 30 <==> !has_part(p, "src/"@) && !has_part(p, "test"@) && !has_part(
            p,
            "spec"@,
        ) && (has_part(p, "vendor/"@) || has_part(p, "deps/"@)),
        has_part(p, "scripts/"@) && !has_part(p, "src/"@) && !has_part(p, "vendor/"@) && !has_part(
            p,
            "deps/"@,
        ) ==> role_percent(path) == 60,
        role_percent(path) == 60 ==> has_part(p, "test"@) || has_part(p, "spec"@) || has_part(
            p,
            "scripts/"@,
        ),
        role_percent(path) == 25 || role_percent(path) == 100 <==> !has_part(p, "src/"@)
            && !has_part(p, "test"@) && !has_part(p, "spec"@) && !has_part(p, "vendor/"@) && !has_part(
            p,
            "deps/"@,
        ) && !has_part(p, "scripts/"@),
        role_percent(path) == 25 ==> {
            ||| exists|stem: Seq<char>| p == #[trigger] (stem + ".md"@)
            ||| exists|stem: Seq<char>| p == #[trigger] (stem + ".rst"@)
            ||| exists|stem: Seq<char>| p == #[trigger] (stem + ".txt"@)
        },
        role_percent(path) == 100 ==> forall|stem: Seq<char>|
            p != #[trigger] (stem + ".md"@) && p != stem + ".rst"@ && p != stem + ".txt"@,
{
    assert(p =~= with_char(path, '\\', '/'));
    reveal_strlit("/");
    reveal_strlit("/src/");
    reveal_strlit("src/");
    reveal_strlit("/test");
    reveal_strlit("test");
    reveal_strlit("/spec");
    reveal_strlit("spec");
    reveal_strlit("/deps/");
    reveal_strlit("deps/");
    reveal_strlit("/vendor/");
    reveal_strlit("vendor/");
    reveal_strlit("/scripts/");
    reveal_strlit("scripts/");
    assert("/src/"@ =~= "/"@ + "src/"@);
    assert("/test"@ =~= "/"@ + "test"@);
    assert("/spec"@ =~= "/"@ + "spec"@);
    assert("/deps/"@ =~= "/"@ + "deps/"@);
    assert("/vendor/"@ =~= "/"@ + "vendor/"@);
    assert("/scripts/"@ =~= "/"@ + "scripts/"@);
    lemma_has_part(p, "src/"@, "/src/"@);
    lemma_has_part(p, "test"@, "/test"@);
    lemma_has_part(p, "spec"@, "/spec"@);
    lemma_has_part(p, "deps/"@, "/deps/"@);
    lemma_has_part(p, "vendor/"@, "/vendor/"@);
    lemma_has_part(p, "scripts/"@, "/scripts/"@);
    lemma_ends_with(p, ".md"@);
    lemma_ends_with(p, ".rst"@);
    lemma_ends_with(p, ".txt"@);
}

/// A text ends with another where it is something and that other behind it.
proof fn lemma_ends_with(p: Seq<char>, end: Seq<char>)
    ensures
        end.is_suffix_of(p) <==> exists|stem: Seq<char>| p == #[trigger] (stem + end),
        forall|stem: Seq<char>| p == #[trigger] (stem + end) ==> end.is_suffix_of(p),
{
    if end.is_suffix_of(p) {
        let stem = p.take(p.len() - end.len());
        assert(p =~= stem + end);
    }
    assert forall|stem: Seq<char>| p == #[trigger] (stem + end) implies end.is_suffix_of(p) by {
        assert(end =~= p.subrange(p.len() - end.len(), p.len() as int));
    }
}

/// The weight of a path that starts with `src/`, or has a directory `src` anywhere, does not depend
/// on the rest of it; nor does that of a test outside of any.
pub proof fn law_role_of_sources_and_tests(before: Seq<char>, behind: Seq<char>)
    ensures
        role_percent("src/"@ + behind) == 200,
        role_percent(before + "/src/"@ + behind) == 200,
        role_percent(before + "/test"@ + behind) == 200 || role_percent(before + "/test"@ + behind)
            == 60,
{
    reveal_strlit("/src/");
    reveal_strlit("src/");
    reveal_strlit("/test");
    let a = with_char("src/"@ + behind, '\\', '/');
    assert("src/"@ =~= a.subrange(0, 4));
    let b = with_char(before + "/src/"@ + behind, '\\', '/');
    let i = before.len() as int;
    assert("/src/"@ =~= b.subrange(i, i + 5));
    assert(occurs_at(b, "/src/"@, i));
    let c = with_char(before + "/test"@ + behind, '\\', '/');
    assert("/test"@ =~= c.subrange(i, i + 5));
    assert(occurs_at(c, "/test"@, i));
}

/// How many terms a path names is counted term by term: a term that the path holds in any case, as
/// it stands, with hyphens for its underscores or with underscores for its hyphens, counts one, and
/// any other counts nothing.
pub proof fn law_named_terms_count(path: Seq<char>, terms: Seq<Seq<char>>, t: Seq<char>)
    ensures
        named(path, Seq::empty()) == 0,
        occurs(lowercase(path), lowercase(t)) ==> named(path, terms.push(t)) == named(path, terms) + 1,
        forall|h: Seq<char>|
            h.len() == lowercase(t).len() && (forall|i: int|
                0 <= i < h.len() ==> #[trigger] h[i] == if lowercase(t)[i] == '_' {
                    '-'
                } else {
                    lowercase(t)[i]
                }) && #[trigger] occurs(lowercase(path), h) ==> named(path, terms.push(t)) == named(
                path,
                terms,
            ) + 1,
        forall|u: Seq<char>|
            u.len() == lowercase(t).len() && (forall|i: int|
                0 <= i < u.len() ==> #[trigger] u[i] == if lowercase(t)[i] == '-' {
                    '_'
                } else {
                    lowercase(t)[i]
                }) && #[trigger] occurs(lowercase(path), u) ==> named(path, terms.push(t)) == named(
                path,
                terms,
            ) + 1,
        !occurs(lowercase(path), lowercase(t)) && !occurs(
            lowercase(path),
            with_char(lowercase(t), '_', '-'),
        ) && !occurs(lowercase(path), with_char(lowercase(t), '-', '_')) ==> named(
            path,
            terms.push(t),
        ) == named(path, terms),
{
    reveal(Seq::filter);
    assert(terms.push(t).drop_last() =~= terms);
    assert forall|h: Seq<char>|
        h.len() == lowercase(t).len() && (forall|i: int|
            0 <= i < h.len() ==> #[trigger] h[i] == if lowercase(t)[i] == '_' {
                '-'
            } else {
                lowercase(t)[i]
            }) && #[trigger] occurs(lowercase(path), h) implies named(path, terms.push(t)) == named(
        path,
        terms,
    ) + 1 by {
        assert(h =~= with_char(lowercase(t), '_', '-'));
    }
    assert forall|u: Seq<char>|
        u.len() == lowercase(t).len() && (forall|i: int|
            0 <= i < u.len() ==> #[trigger] u[i] == if lowercase(t)[i] == '-' {
                '_'
            } else {
                lowercase(t)[i]
            }) && #[trigger] occurs(lowercase(path), u) implies named(path, terms.push(t)) == named(
        path,
        terms,
    ) + 1 by {
        assert(u =~= with_char(lowercase(t), '-', '_'));
    }
}

/// The directory of a file is all that stands before the last slash of its path; a file at the root
/// has none.
pub proof fn law_directory(dir: Seq<char>, name: Seq<char>)
    requires
        !name.contains('/'),
    ensures
        directory(dir.push('/') + name) == dir,
        directory(name) == Seq::<char>::empty(),
{
    law_last_index_parts(dir, '/', name);
    assert((dir.push('/') + name).take(dir.len() as int) =~= dir);
}

} // verus!
