//! Setting up agents: whether their configuration names stria, how it is added and taken out, and
//! the line that keeps the index out of version control.

use vstd::prelude::*;

use crate::index::occurrences::lemma_filter_push;
use crate::json::{
    has_key, lemma_array, lemma_object, lemma_position, lemma_position_is, member, members,
    position, position_of, values, Json, JsonV,
};
use crate::text::{
    append, ascii_lower, chars_of, ends_with, index_from, is_white, law_lines, law_trimming,
    lemma_index_from, lines, lines_from, lines_of, starts_with, str_eq, string_of, trim, trimmed, views,
    without_cr,
};

verus! {

broadcast use vstd::seq::group_seq_axioms;

// ---------------------------------------------------------------------------------------------
// Agents
// ---------------------------------------------------------------------------------------------
/// An agent that stria can be set up for.
pub struct AgentConfig {
    pub name: &'static str,
    /// The path of its configuration, from the home directory.
    pub path: &'static str,
}

/// The agents that stria is set up for without being told more. Any other that lists its servers as
/// the latter two do is set up by its name and the path of its configuration.
pub fn agents() -> (r: Vec<AgentConfig>)
    ensures
        r@.len() == 3,
        r@[0].name@ == "OpenCode"@ && r@[0].path@ == "~/.config/opencode/opencode.json"@,
        r@[1].name@ == "Cursor"@ && r@[1].path@ == "~/.cursor/mcp.json"@,
        r@[2].name@ == "Windsurf"@ && r@[2].path@ == "~/.codeium/windsurf/mcp_config.json"@,
{
    let mut r: Vec<AgentConfig> = Vec::new();
    r.push(AgentConfig { name: "OpenCode", path: "~/.config/opencode/opencode.json" });
    r.push(AgentConfig { name: "Cursor", path: "~/.cursor/mcp.json" });
    r.push(AgentConfig { name: "Windsurf", path: "~/.codeium/windsurf/mcp_config.json" });
    r
}

/// A path with the home directory for its leading `~/`, where there is one and it is known.
pub open spec fn expanded_path(p: Seq<char>, home: Option<Seq<char>>) -> Seq<char> {
    if "~/"@.is_prefix_of(p) && home is Some {
        home->0 + "/"@ + p.skip(2)
    } else {
        p
    }
}

/// Puts the home directory in place of a leading `~/`.
pub fn expand_path(p: &str, home: Option<&str>) -> (r: String)
    ensures
        r@ == expanded_path(
            p@,
            match home {
                Some(h) => Some(h@),
                None => None,
            },
        ),
{
    match home {
        Some(h) if starts_with(p, "~/") => {
            proof {
                reveal_strlit("~/");
            }
            let v = chars_of(p);
            let rest = string_of(v.as_slice(), 2, v.len());
            assert(rest@ =~= p@.skip(2));
            let mut r = h.to_owned();
            append(&mut r, "/");
            append(&mut r, rest.as_str());
            r
        },
        _ => p.to_owned(),
    }
}

/// The agent whose configuration names its servers at the top.
pub open spec fn is_open_code(agent: Seq<char>) -> bool {
    agent == "OpenCode"@
}

/// The configuration names stria: at the top for OpenCode, else among the servers.
pub open spec fn names_stria(cfg: JsonV, agent: Seq<char>) -> bool {
    if is_open_code(agent) {
        member(cfg, "stria"@) is Some
    } else {
        match member(cfg, "mcpServers"@) {
            Some(servers) => member(servers, "stria"@) is Some,
            None => false,
        }
    }
}

/// Whether a configuration names stria.
pub fn has_stria(cfg: &Json, agent: &str) -> (r: bool)
    ensures
        r == names_stria(cfg@, agent@),
{
    if str_eq(agent, "OpenCode") {
        cfg.get("stria").is_some()
    } else {
        match cfg.get("mcpServers") {
            Some(servers) => servers.get("stria").is_some(),
            None => false,
        }
    }
}

/// How an agent is told to start stria.
pub open spec fn stria_entry(agent: Seq<char>, binary: Seq<char>) -> JsonV {
    if is_open_code(agent) {
        JsonV::Object(
            seq![
                ("type"@, JsonV::Text("local"@)),
                ("command"@, JsonV::Array(seq![JsonV::Text(binary), JsonV::Text("serve"@)])),
            ],
        )
    } else {
        JsonV::Object(
            seq![
                ("command"@, JsonV::Text(binary)),
                ("args"@, JsonV::Array(seq![JsonV::Text("serve"@)])),
            ],
        )
    }
}

fn entry_for(agent: &str, binary: &str) -> (j: Json)
    ensures
        j@ == stria_entry(agent@, binary@),
{
    let mut m: Vec<(String, Json)> = Vec::new();
    let mut a: Vec<Json> = Vec::new();
    if str_eq(agent, "OpenCode") {
        a.push(Json::text(binary));
        a.push(Json::text("serve"));
        proof {
            lemma_array(a);
            assert(values(a@) =~= seq![JsonV::Text(binary@), JsonV::Text("serve"@)]);
        }
        m.push(("type".to_owned(), Json::text("local")));
        m.push(("command".to_owned(), Json::Array(a)));
    } else {
        a.push(Json::text("serve"));
        proof {
            lemma_array(a);
            assert(values(a@) =~= seq![JsonV::Text("serve"@)]);
        }
        m.push(("command".to_owned(), Json::text(binary)));
        m.push(("args".to_owned(), Json::Array(a)));
    }
    proof {
        lemma_object(m);
        assert(members(m@) =~= stria_entry(agent@, binary@)->Object_0);
    }
    Json::Object(m)
}

/// Stria can be added to the configuration: for OpenCode it has to be an object, for the others its
/// servers, if it has any, have to be one.
pub open spec fn takes_stria(cfg: JsonV, agent: Seq<char>) -> bool {
    if is_open_code(agent) {
        cfg is Object
    } else {
        member(cfg, "mcpServers"@) is Some ==> member(cfg, "mcpServers"@)->0 is Object
    }
}

/// Whether stria can be added to a configuration.
pub fn can_take_stria(cfg: &Json, agent: &str) -> (r: bool)
    ensures
        r == takes_stria(cfg@, agent@),
{
    if str_eq(agent, "OpenCode") {
        match cfg {
            Json::Object(_) => true,
            _ => false,
        }
    } else {
        match cfg.get("mcpServers") {
            Some(servers) => match servers {
                Json::Object(_) => true,
                _ => false,
            },
            None => true,
        }
    }
}

/// The configuration with stria added. One that names it stays as it is, and so does one that is no
/// object.
pub open spec fn with_stria(cfg: JsonV, agent: Seq<char>, binary: Seq<char>) -> JsonV {
    if names_stria(cfg, agent) || !(cfg is Object) {
        cfg
    } else {
        let o = cfg->Object_0;
        let e = stria_entry(agent, binary);
        if is_open_code(agent) {
            JsonV::Object(o.push(("stria"@, e)))
        } else {
            match member(cfg, "mcpServers"@) {
                Some(servers) => JsonV::Object(
                    o.update(
                        position(o, "mcpServers"@),
                        (
                            "mcpServers"@,
                            JsonV::Object(servers->Object_0.push(("stria"@, e))),
                        ),
                    ),
                ),
                None => JsonV::Object(
                    o.push(("mcpServers"@, JsonV::Object(seq![("stria"@, e)]))),
                ),
            }
        }
    }
}

/// Adds stria to the configuration of an agent, to be started from the file `binary`.
pub fn add_stria(cfg: Json, agent: &str, binary: &str) -> (r: Json)
    requires
        takes_stria(cfg@, agent@),
    ensures
        r@ == with_stria(cfg@, agent@, binary@),
{
    if has_stria(&cfg, agent) {
        return cfg;
    }
    let ghost c = cfg@;
    match cfg {
        Json::Object(m) => {
            let mut m = m;
            let ghost o = members(m@);
            proof {
                lemma_object(m);
            }
            let e = entry_for(agent, binary);
            let ghost ev = e@;
            if str_eq(agent, "OpenCode") {
                m.push(("stria".to_owned(), e));
                proof {
                    lemma_object(m);
                    assert(members(m@) =~= o.push(("stria"@, ev)));
                }
            } else {
                let i = position_of(&m, "mcpServers");
                if i < m.len() {
                    proof {
                        lemma_position(o, "mcpServers"@);
                    }
                    let ghost before = m@;
                    let (key, servers) = m.remove(i);
                    assert(o[i as int] == (key@, servers@));
                    match servers {
                        Json::Object(s) => {
                            let mut s = s;
                            let ghost so = members(s@);
                            proof {
                                lemma_object(s);
                            }
                            s.push(("stria".to_owned(), e));
                            proof {
                                lemma_object(s);
                                assert(members(s@) =~= so.push(("stria"@, ev)));
                            }
                            m.insert(i, (key, Json::Object(s)));
                            proof {
                                lemma_object(m);
                                assert(members(m@) =~= o.update(
                                    i as int,
                                    ("mcpServers"@, JsonV::Object(so.push(("stria"@, ev)))),
                                ));
                            }
                        },
                        _ => {
                            assert(false);
                        },
                    }
                } else {
                    let mut s: Vec<(String, Json)> = Vec::new();
                    s.push(("stria".to_owned(), e));
                    proof {
                        lemma_object(s);
                        assert(members(s@) =~= seq![("stria"@, ev)]);
                    }
                    m.push(("mcpServers".to_owned(), Json::Object(s)));
                    proof {
                        lemma_object(m);
                        assert(members(m@) =~= o.push(
                            ("mcpServers"@, JsonV::Object(seq![("stria"@, ev)])),
                        ));
                    }
                }
            }
            Json::Object(m)
        },
        other => other,
    }
}

/// The members of an object without those with the key `k`.
pub open spec fn without(o: Seq<(Seq<char>, JsonV)>, k: Seq<char>) -> Seq<(Seq<char>, JsonV)> {
    o.filter(|e: (Seq<char>, JsonV)| e.0 != k)
}

fn drop_key(m: Vec<(String, Json)>, k: &str) -> (r: Vec<(String, Json)>)
    ensures
        members(r@) == without(members(m@), k@),
{
    let ghost o = members(m@);
    let ghost other = |e: (Seq<char>, JsonV)| e.0 != k@;
    let ghost mut p: int = 0;
    let mut r = m;
    let mut i: usize = 0;
    proof {
        reveal(Seq::filter);
        assert(o.take(0).filter(other) + o.skip(0) =~= o);
    }
    while i < r.len()
        invariant
            i <= r@.len(),
            0 <= p <= o.len(),
            other == (|e: (Seq<char>, JsonV)| e.0 != k@),
            members(r@) == o.take(p).filter(other) + o.skip(p),
            i == o.take(p).filter(other).len(),
        decreases r@.len() - i,
    {
        let ghost head = o.take(p).filter(other);
        let ghost before = r@;
        proof {
            assert(members(r@).len() == head.len() + o.len() - p);
            assert(members(r@)[i as int] == o.skip(p)[0]);
            assert(members(r@)[i as int].0 == r@[i as int].0@);
            assert(o.take(p + 1) =~= o.take(p).push(o[p]));
            lemma_filter_push(o.take(p), o[p], other);
        }
        if str_eq(r[i].0.as_str(), k) {
            r.remove(i);
            assert(members(r@) =~= members(before).remove(i as int));
            assert(members(r@) =~= head + o.skip(p + 1));
        } else {
            assert(members(r@) =~= head.push(o[p]) + o.skip(p + 1));
            i += 1;
        }
        proof {
            p = p + 1;
        }
    }
    proof {
        assert(p == o.len());
        assert(o.take(p) =~= o);
        assert(members(r@) =~= o.filter(other));
    }
    r
}

/// The configuration without stria.
pub open spec fn without_stria(cfg: JsonV, agent: Seq<char>) -> JsonV {
    if !(cfg is Object) {
        cfg
    } else {
        let o = cfg->Object_0;
        if is_open_code(agent) {
            JsonV::Object(without(o, "stria"@))
        } else {
            match member(cfg, "mcpServers"@) {
                Some(JsonV::Object(s)) => JsonV::Object(
                    o.update(
                        position(o, "mcpServers"@),
                        ("mcpServers"@, JsonV::Object(without(s, "stria"@))),
                    ),
                ),
                _ => cfg,
            }
        }
    }
}

/// Takes stria out of the configuration of an agent.
pub fn remove_stria(cfg: Json, agent: &str) -> (r: Json)
    ensures
        r@ == without_stria(cfg@, agent@),
{
    match cfg {
        Json::Object(m) => {
            let mut m = m;
            let ghost o = members(m@);
            proof {
                lemma_object(m);
            }
            if str_eq(agent, "OpenCode") {
                let r = drop_key(m, "stria");
                proof {
                    lemma_object(r);
                }
                return Json::Object(r);
            }
            let i = position_of(&m, "mcpServers");
            if i < m.len() {
                proof {
                    lemma_position(o, "mcpServers"@);
                }
                let (key, servers) = m.remove(i);
                assert(o[i as int] == (key@, servers@));
                match servers {
                    Json::Object(s) => {
                        let ghost so = members(s@);
                        proof {
                            lemma_object(s);
                        }
                        let t = drop_key(s, "stria");
                        proof {
                            lemma_object(t);
                        }
                        m.insert(i, (key, Json::Object(t)));
                        proof {
                            lemma_object(m);
                            assert(members(m@) =~= o.update(
                                i as int,
                                ("mcpServers"@, JsonV::Object(without(so, "stria"@))),
                            ));
                        }
                    },
                    other => {
                        m.insert(i, (key, other));
                        proof {
                            lemma_object(m);
                            assert(members(m@) =~= o);
                        }
                    },
                }
            }
            Json::Object(m)
        },
        other => other,
    }
}

// ---------------------------------------------------------------------------------------------
// Laws of configurations
// ---------------------------------------------------------------------------------------------
/// A key behind the members of an object that do not hold it.
proof fn lemma_push_member(o: Seq<(Seq<char>, JsonV)>, e: (Seq<char>, JsonV), k: Seq<char>)
    requires
        !has_key(o, e.0),
    ensures
        member(JsonV::Object(o.push(e)), k) == if k == e.0 {
            Some(e.1)
        } else {
            member(JsonV::Object(o), k)
        },
{
    lemma_position(o, k);
    let n = o.push(e);
    if k == e.0 {
        lemma_position_is(n, k, o.len() as int);
    } else if has_key(o, k) {
        lemma_position_is(n, k, position(o, k));
    } else {
        lemma_position_is(n, k, n.len() as int);
    }
}

/// Another value for a key that an object holds.
proof fn lemma_update_member(o: Seq<(Seq<char>, JsonV)>, key: Seq<char>, v: JsonV, k: Seq<char>)
    requires
        has_key(o, key),
    ensures
        position(o.update(position(o, key), (key, v)), key) == position(o, key),
        member(JsonV::Object(o.update(position(o, key), (key, v))), k) == if k == key {
            Some(v)
        } else {
            member(JsonV::Object(o), k)
        },
{
    lemma_position(o, k);
    lemma_position(o, key);
    let n = o.update(position(o, key), (key, v));
    lemma_position_is(n, key, position(o, key));
    lemma_position_is(n, k, position(o, k));
}

/// What is left of an object without a key.
proof fn lemma_without_member(o: Seq<(Seq<char>, JsonV)>, key: Seq<char>, k: Seq<char>)
    ensures
        member(JsonV::Object(without(o, key)), k) == if k == key {
            None
        } else {
            member(JsonV::Object(o), k)
        },
    decreases o.len(),
{
    let other = |e: (Seq<char>, JsonV)| e.0 != key;
    reveal(Seq::filter);
    if o.len() == 0 {
        lemma_position(o, k);
    } else {
        let b = o.drop_last();
        let w = without(b, key);
        lemma_without_member(b, key, k);
        assert(o =~= b.push(o.last()));
        lemma_filter_push(b, o.last(), other);
        assert(without(o, key) == if o.last().0 != key {
            w.push(o.last())
        } else {
            w
        });
        lemma_last_member(b, o.last(), k);
        if o.last().0 != key {
            lemma_last_member(w, o.last(), k);
        }
    }
}

/// A member behind others counts where none of them has its key.
proof fn lemma_last_member(o: Seq<(Seq<char>, JsonV)>, e: (Seq<char>, JsonV), k: Seq<char>)
    ensures
        member(JsonV::Object(o.push(e)), k) == if has_key(o, k) {
            member(JsonV::Object(o), k)
        } else if e.0 == k {
            Some(e.1)
        } else {
            None
        },
{
    lemma_position(o, k);
    let n = o.push(e);
    if has_key(o, k) {
        lemma_position_is(n, k, position(o, k));
    } else if e.0 == k {
        lemma_position_is(n, k, o.len() as int);
    } else {
        lemma_position_is(n, k, n.len() as int);
    }
}

/// An object that does not hold a key is the same without it.
proof fn lemma_without_absent(o: Seq<(Seq<char>, JsonV)>, k: Seq<char>)
    requires
        !has_key(o, k),
    ensures
        without(o, k) == o,
    decreases o.len(),
{
    reveal(Seq::filter);
    lemma_position(o, k);
    if o.len() > 0 {
        let b = o.drop_last();
        assert(o[o.len() - 1].0 != k);
        assert(position(b, k) == b.len()) by {
            assert forall|j: int| 0 <= j < b.len() implies (#[trigger] b[j]).0 != k by {
                assert(o[j].0 != k);
            }
            lemma_position_is(b, k, b.len() as int);
        }
        lemma_without_absent(b, k);
        assert(o =~= b.push(o.last()));
    } else {
        assert(without(o, k) =~= o);
    }
}

/// A configuration that stria was added to names it.
pub proof fn law_added_is_named(cfg: JsonV, agent: Seq<char>, binary: Seq<char>)
    requires
        cfg is Object,
        takes_stria(cfg, agent),
    ensures
        names_stria(with_stria(cfg, agent, binary), agent),
{
    if !names_stria(cfg, agent) {
        let o = cfg->Object_0;
        let e = stria_entry(agent, binary);
        if is_open_code(agent) {
            lemma_push_member(o, ("stria"@, e), "stria"@);
        } else {
            match member(cfg, "mcpServers"@) {
                Some(servers) => {
                    let s = servers->Object_0;
                    lemma_push_member(s, ("stria"@, e), "stria"@);
                    lemma_update_member(
                        o,
                        "mcpServers"@,
                        JsonV::Object(s.push(("stria"@, e))),
                        "mcpServers"@,
                    );
                },
                None => {
                    let one = seq![("stria"@, e)];
                    lemma_push_member(
                        o,
                        ("mcpServers"@, JsonV::Object(one)),
                        "mcpServers"@,
                    );
                    lemma_position_is(one, "stria"@, 0);
                },
            }
        }
    }
}

/// Adding stria twice is adding it once.
pub proof fn law_adding_settles(cfg: JsonV, agent: Seq<char>, binary: Seq<char>)
    requires
        takes_stria(cfg, agent),
    ensures
        with_stria(with_stria(cfg, agent, binary), agent, binary) == with_stria(cfg, agent, binary),
{
    if cfg is Object {
        law_added_is_named(cfg, agent, binary);
    }
}

/// A configuration that stria was taken out of does not name it.
pub proof fn law_removed_is_not_named(cfg: JsonV, agent: Seq<char>)
    ensures
        !names_stria(without_stria(cfg, agent), agent),
{
    if cfg is Object {
        let o = cfg->Object_0;
        if is_open_code(agent) {
            lemma_without_member(o, "stria"@, "stria"@);
        } else {
            match member(cfg, "mcpServers"@) {
                Some(JsonV::Object(s)) => {
                    lemma_without_member(s, "stria"@, "stria"@);
                    lemma_update_member(
                        o,
                        "mcpServers"@,
                        JsonV::Object(without(s, "stria"@)),
                        "mcpServers"@,
                    );
                },
                _ => {},
            }
        }
    }
}

/// Adding stria and taking it out leaves every other member of the configuration as it was, and
/// every other server.
pub proof fn law_others_kept(cfg: JsonV, agent: Seq<char>, binary: Seq<char>, k: Seq<char>)
    requires
        takes_stria(cfg, agent),
        k != "stria"@,
    ensures
        k != "mcpServers"@ || is_open_code(agent) ==> member(with_stria(cfg, agent, binary), k)
            == member(cfg, k) && member(without_stria(cfg, agent), k) == member(cfg, k),
        !is_open_code(agent) && member(cfg, "mcpServers"@) is Some ==> {
            let old_servers = member(cfg, "mcpServers"@)->0;
            let added = member(with_stria(cfg, agent, binary), "mcpServers"@);
            let removed = member(without_stria(cfg, agent), "mcpServers"@);
            &&& added is Some && member(added->0, k) == member(old_servers, k)
            &&& removed is Some && member(removed->0, k) == member(old_servers, k)
        },
{
    reveal_strlit("stria");
    reveal_strlit("mcpServers");
    if cfg is Object {
        let o = cfg->Object_0;
        let e = stria_entry(agent, binary);
        if is_open_code(agent) {
            if !names_stria(cfg, agent) {
                lemma_push_member(o, ("stria"@, e), k);
            }
            lemma_without_member(o, "stria"@, k);
        } else {
            match member(cfg, "mcpServers"@) {
                Some(JsonV::Object(s)) => {
                    let more = JsonV::Object(s.push(("stria"@, e)));
                    let less = JsonV::Object(without(s, "stria"@));
                    lemma_update_member(o, "mcpServers"@, more, k);
                    lemma_update_member(o, "mcpServers"@, less, k);
                    lemma_update_member(o, "mcpServers"@, more, "mcpServers"@);
                    lemma_update_member(o, "mcpServers"@, less, "mcpServers"@);
                    if !names_stria(cfg, agent) {
                        lemma_push_member(s, ("stria"@, e), k);
                    }
                    lemma_without_member(s, "stria"@, k);
                },
                _ => {
                    lemma_push_member(
                        o,
                        ("mcpServers"@, JsonV::Object(seq![("stria"@, e)])),
                        k,
                    );
                },
            }
        }
    }
}

/// Taking out what was added gives the configuration back, but for an empty list of servers where
/// there was none.
pub proof fn law_removing_undoes_adding(cfg: JsonV, agent: Seq<char>, binary: Seq<char>)
    requires
        cfg is Object,
        takes_stria(cfg, agent),
        !names_stria(cfg, agent),
    ensures
        without_stria(with_stria(cfg, agent, binary), agent) == if is_open_code(agent) || member(
            cfg,
            "mcpServers"@,
        ) is Some {
            cfg
        } else {
            JsonV::Object(
                cfg->Object_0.push(("mcpServers"@, JsonV::Object(Seq::empty()))),
            )
        },
{
    let o = cfg->Object_0;
    let e = stria_entry(agent, binary);
    let x = ("stria"@, e);
    let other = |e: (Seq<char>, JsonV)| e.0 != "stria"@;
    if is_open_code(agent) {
        lemma_without_absent(o, "stria"@);
        lemma_filter_push(o, x, other);
    } else {
        match member(cfg, "mcpServers"@) {
            Some(servers) => {
                let s = servers->Object_0;
                let more = JsonV::Object(s.push(x));
                lemma_without_absent(s, "stria"@);
                lemma_filter_push(s, x, other);
                assert(without(s.push(x), "stria"@) == s);
                lemma_update_member(o, "mcpServers"@, more, "mcpServers"@);
                lemma_position(o, "mcpServers"@);
                let p = position(o, "mcpServers"@);
                assert(o[p] == ("mcpServers"@, JsonV::Object(s)));
                assert(o.update(p, ("mcpServers"@, more)).update(
                    p,
                    ("mcpServers"@, JsonV::Object(s)),
                ) =~= o);
            },
            None => {
                let one = seq![x];
                let none: Seq<(Seq<char>, JsonV)> = Seq::empty();
                lemma_filter_push(none, x, other);
                assert(none.push(x) =~= one);
                lemma_position(none, "stria"@);
                lemma_without_absent(none, "stria"@);
                assert(without(one, "stria"@) == none);
                let n = o.push(("mcpServers"@, JsonV::Object(one)));
                lemma_push_member(o, ("mcpServers"@, JsonV::Object(one)), "mcpServers"@);
                lemma_position(o, "mcpServers"@);
                lemma_position_is(n, "mcpServers"@, o.len() as int);
                assert(n.update(o.len() as int, ("mcpServers"@, JsonV::Object(none))) =~= o.push(
                    ("mcpServers"@, JsonV::Object(none)),
                ));
            },
        }
    }
}

// ---------------------------------------------------------------------------------------------
// Which agents
// ---------------------------------------------------------------------------------------------
/// An agent and its configuration, where there is one that can be read.
pub struct AgentState {
    pub name: String,
    pub config: Option<Json>,
}

/// The agent has a configuration that can be read, and it names stria or not, as `named` says.
pub open spec fn is_state(a: AgentState, named: bool) -> bool {
    a.config is Some && names_stria(a.config->0@, a.name@) == named
}

/// The places of the agents among the first `n` whose configuration names stria, or does not.
pub open spec fn places(agents: Seq<AgentState>, named: bool, n: int) -> Seq<usize>
    decreases n,
{
    if n <= 0 {
        Seq::empty()
    } else if is_state(agents[n - 1], named) {
        places(agents, named, n - 1).push((n - 1) as usize)
    } else {
        places(agents, named, n - 1)
    }
}

fn agents_where(agents: &Vec<AgentState>, named: bool) -> (r: Vec<usize>)
    ensures
        r@ == places(agents@, named, agents@.len() as int),
{
    let mut r: Vec<usize> = Vec::new();
    let mut i: usize = 0;
    while i < agents.len()
        invariant
            i <= agents@.len(),
            r@ == places(agents@, named, i as int),
        decreases agents@.len() - i,
    {
        match &agents[i].config {
            Some(cfg) => {
                if has_stria(cfg, agents[i].name.as_str()) == named {
                    r.push(i);
                }
            },
            None => {},
        }
        i += 1;
    }
    r
}

/// The places of the agents that are installed and do not have stria configured.
pub fn detect_agents_without_stria(agents: &Vec<AgentState>) -> (r: Vec<usize>)
    ensures
        r@ == places(agents@, false, agents@.len() as int),
{
    agents_where(agents, false)
}

/// The places of the agents that have stria configured.
pub fn find_configured_agents(agents: &Vec<AgentState>) -> (r: Vec<usize>)
    ensures
        r@ == places(agents@, true, agents@.len() as int),
{
    agents_where(agents, true)
}

/// Every agent with a configuration that can be read is in one of the two lists, and none is in
/// both.
pub proof fn law_agents_parted(agents: Seq<AgentState>, n: int, i: usize)
    requires
        0 <= i < n <= agents.len() <= usize::MAX,
    ensures
        places(agents, true, n).contains(i) <==> is_state(agents[i as int], true),
        places(agents, false, n).contains(i) <==> is_state(agents[i as int], false),
        !(places(agents, true, n).contains(i) && places(agents, false, n).contains(i)),
        agents[i as int].config is Some <==> (places(agents, true, n).contains(i) || places(
            agents,
            false,
            n,
        ).contains(i)),
{
    lemma_places(agents, true, n, i);
    lemma_places(agents, false, n, i);
}

/// What the places of agents are.
proof fn lemma_places(agents: Seq<AgentState>, named: bool, n: int, i: usize)
    requires
        0 <= n <= agents.len() <= usize::MAX,
    ensures
        places(agents, named, n).contains(i) <==> i < n && is_state(agents[i as int], named),
    decreases n,
{
    let p = places(agents, named, n);
    if n > 0 {
        let b = places(agents, named, n - 1);
        lemma_places(agents, named, n - 1, i);
        if is_state(agents[n - 1], named) {
            assert(p == b.push((n - 1) as usize));
            assert(p[b.len() as int] == (n - 1) as usize);
            if b.contains(i) {
                let k = choose|k: int| 0 <= k < b.len() && b[k] == i;
                assert(p[k] == i);
            }
            if p.contains(i) && i != n - 1 {
                let k = choose|k: int| 0 <= k < p.len() && p[k] == i;
                assert(b[k] == i);
            }
        }
    }
}

/// What setting up comes to.
#[derive(Clone, Copy, Debug, PartialEq, Eq, Structural)]
pub enum SetupOutcome {
    /// There are agents to add stria to.
    Offer,
    /// All agents have it.
    AlreadyConfigured,
    /// There are no agents.
    NoAgents,
}

/// What setting up comes to with so many agents without stria and with it.
pub open spec fn outcome_of(without: int, configured: int) -> SetupOutcome {
    if without > 0 {
        SetupOutcome::Offer
    } else if configured > 0 {
        SetupOutcome::AlreadyConfigured
    } else {
        SetupOutcome::NoAgents
    }
}

/// What setting up comes to, by the number of agents without stria and of those with it.
pub fn setup_outcome(without: usize, configured: usize) -> (o: SetupOutcome)
    ensures
        o == outcome_of(without as int, configured as int),
{
    if without > 0 {
        SetupOutcome::Offer
    } else if configured > 0 {
        SetupOutcome::AlreadyConfigured
    } else {
        SetupOutcome::NoAgents
    }
}

// ---------------------------------------------------------------------------------------------
// Answers
// ---------------------------------------------------------------------------------------------
/// The answer, apart from white space around it and from case, is the letter `c`.
pub open spec fn answers(input: Seq<char>, c: char) -> bool {
    trimmed(input).map_values(|x: char| ascii_lower(x)) == seq![c]
}

fn is_answer(input: &str, c: char) -> (r: bool)
    requires
        'a' <= c <= 'z',
    ensures
        r == answers(input@, c),
{
    let t = trim(input);
    let v = chars_of(t);
    let ghost low = t@.map_values(|x: char| ascii_lower(x));
    if v.len() != 1 {
        assert(low.len() != seq![c].len());
        return false;
    }
    let x: char = v[0];
    let l: char = if 'A' <= x && x <= 'Z' {
        ((x as u8) + 32) as char
    } else {
        x
    };
    assert(l == ascii_lower(x));
    assert(low[0] == l);
    if l == c {
        assert(low =~= seq![c]);
        true
    } else {
        assert(low[0] != seq![c][0]);
        false
    }
}

/// Whether stria is added: unless the answer is `n`, or without asking.
pub fn confirms_adding(yes: bool, input: &str) -> (r: bool)
    ensures
        r == (yes || !answers(input@, 'n')),
{
    yes || !is_answer(input, 'n')
}

/// Whether stria is taken out: only if the answer is `y`, or without asking.
pub fn confirms_removing(yes: bool, input: &str) -> (r: bool)
    ensures
        r == (yes || answers(input@, 'y')),
{
    yes || is_answer(input, 'y')
}

// ---------------------------------------------------------------------------------------------
// Version control
// ---------------------------------------------------------------------------------------------
/// A line of a list of ignored files names the directory of the index: apart from white space around
/// it, it is `.stria` or `.stria/`.
pub open spec fn names_index(line: Seq<char>) -> bool {
    trimmed(line) == ".stria"@ || trimmed(line) == ".stria/"@
}

/// A list of ignored files names the directory of the index in some line.
pub open spec fn ignores_index(content: Seq<char>) -> bool {
    exists|i: int| 0 <= i < lines(content).len() && names_index(#[trigger] lines(content)[i])
}

/// A list of ignored files with a line for the directory of the index behind it.
pub open spec fn with_index_line(content: Seq<char>) -> Seq<char> {
    if content.len() > 0 && content.last() != '\n' {
        content + "\n"@ + ".stria"@ + "\n"@
    } else {
        content + ".stria"@ + "\n"@
    }
}

/// Adds the directory of the index to a list of ignored files, unless it is there.
pub fn add_to_gitignore(content: &str) -> (r: Option<String>)
    ensures
        match r {
            Some(c) => !ignores_index(content@) && c@ == with_index_line(content@),
            None => ignores_index(content@),
        },
{
    let ls = lines_of(content);
    let ghost all = lines(content@);
    let mut i: usize = 0;
    while i < ls.len()
        invariant
            i <= ls@.len(),
            all == views(ls@),
            all == lines(content@),
            forall|k: int| 0 <= k < i ==> !names_index(#[trigger] all[k]),
        decreases ls@.len() - i,
    {
        assert(all[i as int] == ls@[i as int]@);
        let line = trim(ls[i].as_str());
        if str_eq(line, ".stria") || str_eq(line, ".stria/") {
            assert(names_index(lines(content@)[i as int]));
            return None;
        }
        i += 1;
    }
    let mut c = content.to_owned();
    proof {
        reveal_strlit("\n");
    }
    let ends = ends_with(content, "\n");
    proof {
        assert("\n"@ =~= seq!['\n']);
        if content@.len() > 0 {
            assert(content@.subrange(content@.len() - 1, content@.len() as int) =~= seq![
                content@.last(),
            ]);
            assert(seq![content@.last()] == seq!['\n'] <==> content@.last() == '\n') by {
                assert(seq![content@.last()][0] == content@.last());
                assert(seq!['\n'][0] == '\n');
            }
        }
        assert(ends == (content@.len() > 0 && content@.last() == '\n'));
    }
    if content.as_bytes().len() > 0 && !ends {
        append(&mut c, "\n");
    }
    proof {
        lemma_empty_bytes(content@);
    }
    append(&mut c, ".stria");
    append(&mut c, "\n");
    Some(c)
}

/// A string has bytes if and only if it has characters.
proof fn lemma_empty_bytes(s: Seq<char>)
    ensures
        vstd::utf8::encode_utf8(s).len() > 0 <==> s.len() > 0,
{
    crate::text::lemma_same_bytes(s, Seq::empty());
    let e = vstd::utf8::encode_utf8(Seq::<char>::empty());
    assert(e.len() == 0);
    if vstd::utf8::encode_utf8(s).len() == 0 {
        assert(vstd::utf8::encode_utf8(s) =~= e);
    }
}

/// What is added stays: a list that the directory of the index was added to ignores it, so nothing
/// is added to it again, and it starts with what was there before.
pub proof fn law_index_line_settles(content: Seq<char>)
    ensures
        ignores_index(with_index_line(content)),
        content.is_prefix_of(with_index_line(content)),
{
    reveal_strlit("\n");
    reveal_strlit(".stria");
    let head = if content.len() > 0 && content.last() != '\n' {
        content + "\n"@
    } else {
        content
    };
    let u = with_index_line(content);
    assert(u =~= head + ".stria"@ + seq!['\n']);
    assert(u.take(content.len() as int) =~= content);
    lemma_last_line(head, ".stria"@, 0);
    let i = choose|i: int|
        0 <= i < lines_from(u, 0).len() && #[trigger] lines_from(u, 0)[i] == ".stria"@;
    assert(lines(u)[i] == ".stria"@);
    assert(trimmed(".stria"@) == ".stria"@);
}

/// A line behind lines that are ended is one of the lines.
proof fn lemma_last_line(head: Seq<char>, t: Seq<char>, from: int)
    requires
        0 <= from <= head.len(),
        head.len() == 0 || head.last() == '\n',
        t.len() > 0,
        t.last() != '\r',
        forall|i: int| 0 <= i < t.len() ==> #[trigger] t[i] != '\n',
    ensures
        ({
            let u = head + t + seq!['\n'];
            exists|i: int| 0 <= i < lines_from(u, from).len() && #[trigger] lines_from(u, from)[i] == t
        }),
    decreases head.len() - from,
{
    let u = head + t + seq!['\n'];
    let n = head.len() as int;
    let e = index_from(u, '\n', from);
    lemma_index_from(u, '\n', from);
    if from == n {
        let end = n + t.len();
        assert(u[end] == '\n');
        assert forall|k: int| n <= k < end implies u[k] != '\n' by {
            assert(u[k] == t[k - n]);
        }
        assert(e == end);
        assert(u.subrange(n, end) =~= t);
        assert(without_cr(t) == t);
        assert(lines_from(u, from)[0] == t);
    } else {
        assert(u[n - 1] == head.last());
        assert(e <= n - 1);
        lemma_last_line(head, t, e + 1);
        let rest = lines_from(u, e + 1);
        let i = choose|i: int| 0 <= i < rest.len() && #[trigger] rest[i] == t;
        assert(lines_from(u, from) == seq![without_cr(u.subrange(from, e))] + rest);
        assert(lines_from(u, from)[i + 1] == t);
    }
}

/// A path that starts with `~/` is one below the home directory, where there is one; any other stays
/// as it is.
pub proof fn law_home_expanded(rest: Seq<char>, home: Seq<char>, p: Seq<char>)
    ensures
        expanded_path("~/"@ + rest, Some(home)) == home.push('/') + rest,
        expanded_path(p, None) == p,
        p.len() < 2 || p[0] != '~' || p[1] != '/' ==> expanded_path(p, Some(home)) == p,
{
    reveal_strlit("~/");
    reveal_strlit("/");
    let q = "~/"@ + rest;
    assert("~/"@ =~= q.subrange(0, 2));
    assert(q.skip(2) =~= rest);
    assert(home + "/"@ + rest =~= home.push('/') + rest);
    if "~/"@.is_prefix_of(p) {
        assert(p.subrange(0, 2)[0] == "~/"@[0] && p.subrange(0, 2)[1] == "~/"@[1]);
    }
}

/// The entry starts the server: `serve` is the one argument of the binary.
pub proof fn law_entry_serves(agent: Seq<char>, binary: Seq<char>)
    ensures
        agent == "OpenCode"@ ==> {
            let e = stria_entry(agent, binary);
            &&& member(e, "type"@) == Some(JsonV::Text("local"@))
            &&& member(e, "command"@) == Some(
                JsonV::Array(seq![JsonV::Text(binary), JsonV::Text("serve"@)]),
            )
        },
        agent != "OpenCode"@ ==> {
            let e = stria_entry(agent, binary);
            &&& member(e, "command"@) == Some(JsonV::Text(binary))
            &&& member(e, "args"@) == Some(JsonV::Array(seq![JsonV::Text("serve"@)]))
            &&& member(e, "type"@) is None
        },
{
    reveal_strlit("type");
    reveal_strlit("command");
    reveal_strlit("args");
    assert("type"@.len() == 4 && "command"@.len() == 7 && "args"@.len() == 4);
    assert("type"@[0] == 't' && "args"@[0] == 'a');
    let o = stria_entry(agent, binary)->Object_0;
    if agent == "OpenCode"@ {
        lemma_position_is(o, "type"@, 0);
        lemma_position_is(o, "command"@, 1);
    } else {
        lemma_position_is(o, "command"@, 0);
        lemma_position_is(o, "args"@, 1);
        lemma_position_is(o, "type"@, 2);
    }
}

/// Where the entry stands once it is added: for one agent at the top, for the others among the
/// servers.
pub proof fn law_added_entry(cfg: JsonV, agent: Seq<char>, binary: Seq<char>)
    requires
        cfg is Object,
        takes_stria(cfg, agent),
        !names_stria(cfg, agent),
    ensures
        agent == "OpenCode"@ ==> member(with_stria(cfg, agent, binary), "stria"@) == Some(
            stria_entry(agent, binary),
        ),
        agent != "OpenCode"@ ==> member(with_stria(cfg, agent, binary), "mcpServers"@) is Some
            && member(member(with_stria(cfg, agent, binary), "mcpServers"@)->0, "stria"@) == Some(
            stria_entry(agent, binary),
        ),
{
    let o = cfg->Object_0;
    let e = stria_entry(agent, binary);
    lemma_position(o, "stria"@);
    lemma_position(o, "mcpServers"@);
    if is_open_code(agent) {
        lemma_push_member(o, ("stria"@, e), "stria"@);
    } else {
        match member(cfg, "mcpServers"@) {
            Some(servers) => {
                let s = servers->Object_0;
                lemma_position(s, "stria"@);
                lemma_push_member(s, ("stria"@, e), "stria"@);
                lemma_update_member(
                    o,
                    "mcpServers"@,
                    JsonV::Object(s.push(("stria"@, e))),
                    "mcpServers"@,
                );
            },
            None => {
                let s = seq![("stria"@, e)];
                lemma_position_is(s, "stria"@, 0);
                lemma_push_member(o, ("mcpServers"@, JsonV::Object(s)), "mcpServers"@);
            },
        }
    }
}

/// Which configurations name stria: for one agent those with a member of that name, for the others
/// those with one among the servers.
pub proof fn law_where_named(cfg: JsonV, agent: Seq<char>)
    ensures
        agent == "OpenCode"@ ==> (names_stria(cfg, agent) <==> member(cfg, "stria"@) is Some),
        agent != "OpenCode"@ && member(cfg, "mcpServers"@) is None ==> !names_stria(cfg, agent),
        agent != "OpenCode"@ && member(cfg, "mcpServers"@) is Some ==> (names_stria(cfg, agent)
            <==> member(member(cfg, "mcpServers"@)->0, "stria"@) is Some),
        agent == "OpenCode"@ ==> (takes_stria(cfg, agent) <==> cfg is Object),
        agent != "OpenCode"@ && member(cfg, "mcpServers"@) is None ==> takes_stria(cfg, agent),
        agent != "OpenCode"@ && member(cfg, "mcpServers"@) is Some ==> (takes_stria(cfg, agent)
            <==> member(cfg, "mcpServers"@)->0 is Object),
{
}

/// Taking a member away leaves all others, in order and as they were.
pub proof fn law_member_taken_away(
    o: Seq<(Seq<char>, JsonV)>,
    e: (Seq<char>, JsonV),
    k: Seq<char>,
)
    ensures
        without(Seq::empty(), k).len() == 0,
        e.0 == k ==> without(o.push(e), k) == without(o, k),
        e.0 != k ==> without(o.push(e), k) == without(o, k).push(e),
{
    reveal(Seq::filter);
    assert(o.push(e).drop_last() =~= o);
}

/// Agents are listed in their order, each at most once.
pub proof fn law_agents_in_order(agents: Seq<AgentState>, named: bool, n: int)
    requires
        0 <= n <= agents.len() <= usize::MAX,
    ensures
        forall|a: int, b: int|
            0 <= a < b < places(agents, named, n).len() ==> #[trigger] places(agents, named, n)[a]
                < #[trigger] places(agents, named, n)[b],
        forall|a: int|
            0 <= a < places(agents, named, n).len() ==> #[trigger] places(agents, named, n)[a] < n,
    decreases n,
{
    if n > 0 {
        law_agents_in_order(agents, named, n - 1);
        let before = places(agents, named, n - 1);
        let all = places(agents, named, n);
        assert forall|a: int| 0 <= a < all.len() implies #[trigger] all[a] < n by {
            if a < before.len() {
                assert(before[a] < n - 1);
                assert(all[a] == before[a]);
            }
        }
        assert forall|a: int, b: int| 0 <= a < b < all.len() implies #[trigger] all[a]
            < #[trigger] all[b] by {
            assert(all[a] == before[a]);
            assert(before[a] < n - 1);
            if b < before.len() {
                assert(before[a] < before[b]);
            }
        }
    }
}

/// An answer is one letter in either case, with white space around it or without.
pub proof fn law_answer(input: Seq<char>, c: char)
    requires
        'a' <= c <= 'z',
    ensures
        answers(input, c) <==> trimmed(input).len() == 1 && (trimmed(input)[0] == c || trimmed(
            input,
        )[0] as int + 32 == c as int),
{
    let s = trimmed(input);
    let l = s.map_values(|x: char| ascii_lower(x));
    if answers(input, c) {
        assert(l == seq![c]);
        assert(l.len() == 1 && l[0] == c);
        assert(l[0] == ascii_lower(s[0]));
    }
    if s.len() == 1 && (s[0] == c || s[0] as int + 32 == c as int) {
        assert(l =~= seq![c]);
    }
}

/// A line names the index where it is `.stria`, with a slash behind it or without, and white space
/// around it.
pub proof fn law_line_names_index(lead: Seq<char>, trail: Seq<char>)
    requires
        forall|i: int| 0 <= i < lead.len() ==> is_white(#[trigger] lead[i]),
        forall|i: int| 0 <= i < trail.len() ==> is_white(#[trigger] trail[i]),
    ensures
        names_index(lead + ".stria"@ + trail),
        names_index(lead + ".stria/"@ + trail),
{
    reveal_strlit(".stria");
    reveal_strlit(".stria/");
    law_trimming(lead, ".stria"@, trail);
    law_trimming(lead, ".stria/"@, trail);
}

/// What is added to a list of ignored files: the one line, behind a line feed where the last line has
/// none.
pub proof fn law_index_line_added(content: Seq<char>)
    ensures
        with_index_line(content.push('\n')) == content.push('\n') + ".stria\n"@,
        with_index_line(Seq::empty()) == ".stria\n"@,
        content.len() > 0 && content.last() != '\n' ==> with_index_line(content) == content.push('\n')
            + ".stria\n"@,
{
    reveal_strlit(".stria");
    reveal_strlit(".stria\n");
    reveal_strlit("\n");
    assert(with_index_line(content.push('\n')) =~= content.push('\n') + ".stria\n"@);
    assert(with_index_line(Seq::empty()) =~= ".stria\n"@);
    if content.len() > 0 && content.last() != '\n' {
        assert(with_index_line(content) =~= content.push('\n') + ".stria\n"@);
    }
}

/// Stria is offered exactly where an agent lacks it, and there are no agents exactly where there are
/// none of either kind.
pub proof fn law_setup_outcome(without: int, configured: int)
    requires
        0 <= without,
        0 <= configured,
    ensures
        outcome_of(without, configured) == SetupOutcome::Offer <==> without >= 1,
        outcome_of(without, configured) == SetupOutcome::NoAgents <==> without + configured == 0,
        outcome_of(without, configured) == SetupOutcome::AlreadyConfigured <==> without == 0
            && configured >= 1,
{
}

/// A list of ignored files names the index where one of its lines does.
pub proof fn law_ignored_by_a_line(l: Seq<char>, rest: Seq<char>)
    requires
        !l.contains('\n'),
        l.len() == 0 || l.last() != '\r',
    ensures
        !ignores_index(Seq::empty()),
        l.len() > 0 ==> (ignores_index(l) <==> names_index(l)),
        ignores_index(l.push('\n') + rest) <==> names_index(l) || ignores_index(rest),
{
    law_lines(l, rest);
    if l.len() > 0 {
        assert(lines(l)[0] == l);
    }
    let all = lines(l.push('\n') + rest);
    let more = lines(rest);
    assert(all == seq![l] + more);
    assert(all[0] == l);
    if ignores_index(l.push('\n') + rest) {
        let i = choose|i: int| 0 <= i < all.len() && names_index(#[trigger] all[i]);
        if i > 0 {
            assert(names_index(more[i - 1]));
        }
    }
    if ignores_index(rest) {
        let i = choose|i: int| 0 <= i < more.len() && names_index(#[trigger] more[i]);
        assert(all[i + 1] == more[i]);
        assert(names_index(all[i + 1]));
    }
}

} // verus!
