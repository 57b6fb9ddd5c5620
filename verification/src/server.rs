//! The server: what a request asks for, and what it is answered.

use vstd::prelude::*;
use vstd::utf8::*;

use crate::index::occurrences::lemma_filter_push;
use crate::json::{
    law_member_is_first, lemma_array, lemma_object, member, members, text_array, values, Json, JsonV,
};
use crate::search::hits::substring_pattern;
use crate::number::{decimal, decimal_text, number_in, read_number};
use crate::structural_risk::{
    capped, is_ranked, is_tally, law_ones_ranked, module_of, ones, part, ranked, ranks, risk_text,
    slice_of, tally, Plan, Trace,
};
use crate::text::{
    after_last, before_last, joined_text, last_index, law_last_index_parts, replace_char, str_eq, views,
    with_char,
};
use crate::text_map::has_entry;

verus! {

broadcast use vstd::seq::group_seq_axioms;

// ---------------------------------------------------------------------------------------------
// Tools
// ---------------------------------------------------------------------------------------------
/// A tool that the server offers.
#[derive(Clone, Copy, Debug, PartialEq, Eq, Structural)]
pub enum Tool {
    /// What the repository holds and which tools there are.
    Orient,
    /// The file to edit, its test and the risk.
    CodeSearch,
    /// The plan for a task.
    PreEdit,
    /// The files that match a query.
    Search,
    /// The files that use a name.
    WhoCalls,
    /// The files that use a name, and those that use what they define, and so on.
    TraceCallers,
    /// The files of other modules that share rare vocabulary.
    HiddenDeps,
    /// The body of a function by its hash.
    ExpandBody,
    /// The hashes of functions by their name.
    FindHash,
    /// The health of the index.
    Health,
    /// Another repository for the rest of the session.
    SwitchRepo,
}

/// The name of a tool.
pub open spec fn tool_name(t: Tool) -> Seq<char> {
    match t {
        Tool::Orient => "orient"@,
        Tool::CodeSearch => "code_search"@,
        Tool::PreEdit => "pre_edit"@,
        Tool::Search => "search"@,
        Tool::WhoCalls => "who_calls"@,
        Tool::TraceCallers => "trace_callers"@,
        Tool::HiddenDeps => "hidden_deps"@,
        Tool::ExpandBody => "expand_body"@,
        Tool::FindHash => "find_hash"@,
        Tool::Health => "health"@,
        Tool::SwitchRepo => "switch_repo"@,
    }
}

/// Another name that a tool answers to.
pub open spec fn tool_alias(t: Tool) -> Seq<char> {
    match t {
        Tool::Orient => "hologram_orient"@,
        Tool::CodeSearch => "hologram_task"@,
        Tool::PreEdit => "hologram_plan"@,
        Tool::Search => "holo_search"@,
        Tool::WhoCalls => "who_calls"@,
        Tool::TraceCallers => "trace_callers"@,
        Tool::HiddenDeps => "latent_deps"@,
        Tool::ExpandBody => "cross_horizon"@,
        Tool::FindHash => "search_horizon"@,
        Tool::Health => "eh_health"@,
        Tool::SwitchRepo => "switch_repo"@,
    }
}

/// The tool goes by the name `n`.
pub open spec fn goes_by(t: Tool, n: Seq<char>) -> bool {
    n == tool_name(t) || n == tool_alias(t)
}

/// The tool that goes by a name, if there is one.
pub open spec fn tool_named(n: Seq<char>) -> Option<Tool> {
    if goes_by(Tool::Orient, n) {
        Some(Tool::Orient)
    } else if goes_by(Tool::CodeSearch, n) {
        Some(Tool::CodeSearch)
    } else if goes_by(Tool::PreEdit, n) {
        Some(Tool::PreEdit)
    } else if goes_by(Tool::Search, n) {
        Some(Tool::Search)
    } else if goes_by(Tool::WhoCalls, n) {
        Some(Tool::WhoCalls)
    } else if goes_by(Tool::TraceCallers, n) {
        Some(Tool::TraceCallers)
    } else if goes_by(Tool::HiddenDeps, n) {
        Some(Tool::HiddenDeps)
    } else if goes_by(Tool::ExpandBody, n) {
        Some(Tool::ExpandBody)
    } else if goes_by(Tool::FindHash, n) {
        Some(Tool::FindHash)
    } else if goes_by(Tool::Health, n) {
        Some(Tool::Health)
    } else if goes_by(Tool::SwitchRepo, n) {
        Some(Tool::SwitchRepo)
    } else {
        None
    }
}

/// The tool that goes by a name.
pub fn tool_of(n: &str) -> (r: Option<Tool>)
    ensures
        r == tool_named(n@),
{
    if str_eq(n, "orient") || str_eq(n, "hologram_orient") {
        Some(Tool::Orient)
    } else if str_eq(n, "code_search") || str_eq(n, "hologram_task") {
        Some(Tool::CodeSearch)
    } else if str_eq(n, "pre_edit") || str_eq(n, "hologram_plan") {
        Some(Tool::PreEdit)
    } else if str_eq(n, "search") || str_eq(n, "holo_search") {
        Some(Tool::Search)
    } else if str_eq(n, "who_calls") {
        Some(Tool::WhoCalls)
    } else if str_eq(n, "trace_callers") {
        Some(Tool::TraceCallers)
    } else if str_eq(n, "hidden_deps") || str_eq(n, "latent_deps") {
        Some(Tool::HiddenDeps)
    } else if str_eq(n, "expand_body") || str_eq(n, "cross_horizon") {
        Some(Tool::ExpandBody)
    } else if str_eq(n, "find_hash") || str_eq(n, "search_horizon") {
        Some(Tool::FindHash)
    } else if str_eq(n, "health") || str_eq(n, "eh_health") {
        Some(Tool::Health)
    } else if str_eq(n, "switch_repo") {
        Some(Tool::SwitchRepo)
    } else {
        None
    }
}

impl Tool {
    /// The name of the tool.
    pub fn name(&self) -> (s: &'static str)
        ensures
            s@ == tool_name(*self),
    {
        match self {
            Tool::Orient => "orient",
            Tool::CodeSearch => "code_search",
            Tool::PreEdit => "pre_edit",
            Tool::Search => "search",
            Tool::WhoCalls => "who_calls",
            Tool::TraceCallers => "trace_callers",
            Tool::HiddenDeps => "hidden_deps",
            Tool::ExpandBody => "expand_body",
            Tool::FindHash => "find_hash",
            Tool::Health => "health",
            Tool::SwitchRepo => "switch_repo",
        }
    }
}

/// The tools, in the order in which they are listed.
pub open spec fn listed_tools() -> Seq<Tool> {
    seq![
        Tool::Orient,
        Tool::CodeSearch,
        Tool::PreEdit,
        Tool::Search,
        Tool::WhoCalls,
        Tool::TraceCallers,
        Tool::HiddenDeps,
        Tool::ExpandBody,
        Tool::FindHash,
        Tool::Health,
        Tool::SwitchRepo,
    ]
}

/// The tools, in the order in which they are listed.
pub fn all_tools() -> (r: Vec<Tool>)
    ensures
        r@ == listed_tools(),
{
    let mut r: Vec<Tool> = Vec::new();
    r.push(Tool::Orient);
    r.push(Tool::CodeSearch);
    r.push(Tool::PreEdit);
    r.push(Tool::Search);
    r.push(Tool::WhoCalls);
    r.push(Tool::TraceCallers);
    r.push(Tool::HiddenDeps);
    r.push(Tool::ExpandBody);
    r.push(Tool::FindHash);
    r.push(Tool::Health);
    r.push(Tool::SwitchRepo);
    assert(r@ =~= listed_tools());
    r
}

/// What an argument of a tool is.
#[derive(Clone, Copy, Debug, PartialEq, Eq, Structural)]
pub enum ArgumentKind {
    /// A text, which has to be given.
    Text,
    /// A truth value, which may be left out.
    Flag,
    /// A number, which may be left out.
    Number,
}

/// The arguments of a tool.
pub open spec fn tool_arguments(t: Tool) -> Seq<(Seq<char>, ArgumentKind)> {
    match t {
        Tool::Orient => Seq::empty(),
        Tool::CodeSearch => seq![
            ("task"@, ArgumentKind::Text),
            ("expand_plan"@, ArgumentKind::Flag),
            ("expand_full"@, ArgumentKind::Flag),
        ],
        Tool::PreEdit => seq![("task"@, ArgumentKind::Text)],
        Tool::Search => seq![("query"@, ArgumentKind::Text)],
        Tool::WhoCalls => seq![("name"@, ArgumentKind::Text)],
        Tool::TraceCallers => seq![
            ("name"@, ArgumentKind::Text),
            ("depth"@, ArgumentKind::Number),
        ],
        Tool::HiddenDeps => seq![("file"@, ArgumentKind::Text)],
        Tool::ExpandBody => seq![("hash"@, ArgumentKind::Text)],
        Tool::FindHash => seq![("name"@, ArgumentKind::Text)],
        Tool::Health => Seq::empty(),
        Tool::SwitchRepo => seq![("repo"@, ArgumentKind::Text)],
    }
}

impl Tool {
    /// The arguments of the tool.
    pub fn arguments(&self) -> (r: Vec<(&'static str, ArgumentKind)>)
        ensures
            r@.map_values(|a: (&'static str, ArgumentKind)| (a.0@, a.1)) == tool_arguments(*self),
    {
        let mut r: Vec<(&'static str, ArgumentKind)> = Vec::new();
        match self {
            Tool::Orient => {},
            Tool::CodeSearch => {
                r.push(("task", ArgumentKind::Text));
                r.push(("expand_plan", ArgumentKind::Flag));
                r.push(("expand_full", ArgumentKind::Flag));
            },
            Tool::PreEdit => {
                r.push(("task", ArgumentKind::Text));
            },
            Tool::Search => {
                r.push(("query", ArgumentKind::Text));
            },
            Tool::WhoCalls => {
                r.push(("name", ArgumentKind::Text));
            },
            Tool::TraceCallers => {
                r.push(("name", ArgumentKind::Text));
                r.push(("depth", ArgumentKind::Number));
            },
            Tool::HiddenDeps => {
                r.push(("file", ArgumentKind::Text));
            },
            Tool::ExpandBody => {
                r.push(("hash", ArgumentKind::Text));
            },
            Tool::FindHash => {
                r.push(("name", ArgumentKind::Text));
            },
            Tool::Health => {},
            Tool::SwitchRepo => {
                r.push(("repo", ArgumentKind::Text));
            },
        }
        assert(r@.map_values(|a: (&'static str, ArgumentKind)| (a.0@, a.1)) =~= tool_arguments(
            *self,
        ));
        r
    }
}

/// Every tool is listed, and none twice.
pub proof fn law_tools_listed(t: Tool)
    ensures
        listed_tools().contains(t),
        listed_tools().no_duplicates(),
{
    let l = listed_tools();
    let i: int = match t {
        Tool::Orient => 0,
        Tool::CodeSearch => 1,
        Tool::PreEdit => 2,
        Tool::Search => 3,
        Tool::WhoCalls => 4,
        Tool::TraceCallers => 5,
        Tool::HiddenDeps => 6,
        Tool::ExpandBody => 7,
        Tool::FindHash => 8,
        Tool::Health => 9,
        Tool::SwitchRepo => 10,
    };
    assert(l[i] == t);
}

/// Every tool is found by its names, and no name belongs to two tools.
pub proof fn law_tools_found(t: Tool, u: Tool, n: Seq<char>)
    ensures
        tool_named(tool_name(t)) == Some(t),
        tool_named(tool_alias(t)) == Some(t),
        goes_by(t, n) && goes_by(u, n) ==> t == u,
{
    lemma_differ(t, u);
    lemma_differ(t, Tool::Orient);
    lemma_differ(t, Tool::CodeSearch);
    lemma_differ(t, Tool::PreEdit);
    lemma_differ(t, Tool::Search);
    lemma_differ(t, Tool::WhoCalls);
    lemma_differ(t, Tool::HiddenDeps);
    lemma_differ(t, Tool::ExpandBody);
    lemma_differ(t, Tool::FindHash);
    lemma_differ(t, Tool::TraceCallers);
    lemma_differ(t, Tool::Health);
}

/// The length of a name and the letter at which it is told from the others of that length.
spec fn name_key(n: Seq<char>) -> (nat, char, char) {
    (n.len(), n[0], n[2])
}

/// The names of different tools differ.
proof fn lemma_differ(t: Tool, u: Tool)
    ensures
        t != u ==> tool_name(t) != tool_name(u),
        t != u ==> tool_alias(t) != tool_alias(u),
        t != u ==> tool_name(t) != tool_alias(u),
        t != u ==> tool_alias(t) != tool_name(u),
{
    reveal_strlit("orient");
    reveal_strlit("code_search");
    reveal_strlit("pre_edit");
    reveal_strlit("search");
    reveal_strlit("who_calls");
    reveal_strlit("hidden_deps");
    reveal_strlit("expand_body");
    reveal_strlit("find_hash");
    reveal_strlit("health");
    reveal_strlit("hologram_orient");
    reveal_strlit("hologram_task");
    reveal_strlit("hologram_plan");
    reveal_strlit("holo_search");
    reveal_strlit("latent_deps");
    reveal_strlit("cross_horizon");
    reveal_strlit("search_horizon");
    reveal_strlit("eh_health");
    reveal_strlit("trace_callers");
    reveal_strlit("switch_repo");
    assert(t != u ==> name_key(tool_name(t)) != name_key(tool_name(u)) || tool_name(t)[9]
        != tool_name(u)[9]);
    assert(t != u ==> name_key(tool_alias(t)) != name_key(tool_alias(u)) || tool_alias(t)[9]
        != tool_alias(u)[9]);
    assert(t != u ==> name_key(tool_name(t)) != name_key(tool_alias(u)) || tool_name(t)[1]
        != tool_alias(u)[1]);
    assert(t != u ==> name_key(tool_alias(t)) != name_key(tool_name(u)) || tool_alias(t)[1]
        != tool_name(u)[1]);
}

// ---------------------------------------------------------------------------------------------
// Requests
// ---------------------------------------------------------------------------------------------
/// What a request asks for.
#[derive(Clone, Copy, Debug, PartialEq, Eq, Structural)]
pub enum Route {
    /// To start a session.
    Initialize,
    /// The list of tools.
    ListTools,
    /// A call of a tool, or of one that there is none of.
    CallTool(Option<Tool>),
    /// Something unknown, to be answered with nothing in it.
    Unknown,
    /// Nothing: it is not answered.
    Silent,
}

/// The text of a member, or nothing.
pub open spec fn text_member(j: JsonV, k: Seq<char>) -> Seq<char> {
    match member(j, k) {
        Some(JsonV::Text(t)) => t,
        _ => Seq::empty(),
    }
}

/// What is reached from a value by one key after the other.
pub open spec fn at_path(j: JsonV, path: Seq<Seq<char>>) -> Option<JsonV>
    decreases path.len(),
{
    if path.len() == 0 {
        Some(j)
    } else {
        match member(j, path[0]) {
            Some(m) => at_path(m, path.drop_first()),
            None => None,
        }
    }
}

/// The text that is reached by some keys, or nothing.
pub open spec fn text_at(j: JsonV, path: Seq<Seq<char>>) -> Seq<char> {
    match at_path(j, path) {
        Some(JsonV::Text(t)) => t,
        _ => Seq::empty(),
    }
}

/// The truth value that is reached by some keys, or false.
pub open spec fn flag_at(j: JsonV, path: Seq<Seq<char>>) -> bool {
    match at_path(j, path) {
        Some(JsonV::Bool(b)) => b,
        _ => false,
    }
}

/// What a request asks for, by its method and, for a call, by the name of the tool. A request with
/// an unknown method is answered if and only if it has an id.
pub open spec fn route_of(request: JsonV) -> Route {
    let method = text_member(request, "method"@);
    if method == "initialize"@ {
        Route::Initialize
    } else if method == "notifications/initialized"@ {
        Route::Silent
    } else if method == "tools/list"@ {
        Route::ListTools
    } else if method == "tools/call"@ {
        Route::CallTool(tool_named(text_at(request, seq!["params"@, "name"@])))
    } else if member(request, "id"@) is Some {
        Route::Unknown
    } else {
        Route::Silent
    }
}

fn follow<'a>(j: &'a Json, a: &str, b: &str) -> (r: Option<&'a Json>)
    ensures
        match r {
            Some(x) => at_path(j@, seq![a@, b@]) == Some(x@),
            None => at_path(j@, seq![a@, b@]) is None,
        },
{
    proof {
        lemma_two_keys(j@, a@, b@);
    }
    match j.get(a) {
        Some(m) => m.get(b),
        None => None,
    }
}

proof fn lemma_two_keys(j: JsonV, a: Seq<char>, b: Seq<char>)
    ensures
        at_path(j, seq![a, b]) == match member(j, a) {
            Some(m) => member(m, b),
            None => None,
        },
{
    assert(seq![a, b].drop_first() =~= seq![b]);
    assert(seq![b].drop_first() =~= Seq::<Seq<char>>::empty());
    match member(j, a) {
        Some(m) => {
            assert(at_path(m, seq![b]) == match member(m, b) {
                Some(x) => at_path(x, Seq::empty()),
                None => None,
            });
        },
        None => {},
    }
}

proof fn lemma_three_keys(j: JsonV, a: Seq<char>, b: Seq<char>, c: Seq<char>)
    ensures
        at_path(j, seq![a, b, c]) == match at_path(j, seq![a, b]) {
            Some(m) => member(m, c),
            None => None,
        },
{
    lemma_two_keys(j, a, b);
    assert(seq![a, b, c].drop_first() =~= seq![b, c]);
    match member(j, a) {
        Some(m) => {
            lemma_two_keys(m, b, c);
        },
        None => {},
    }
}

/// What a request asks for.
pub fn route(request: &Json) -> (r: Route)
    ensures
        r == route_of(request@),
{
    let method: &str = match request.get("method") {
        Some(m) => match m.as_text() {
            Some(t) => t,
            None => "",
        },
        None => "",
    };
    proof {
        reveal_strlit("");
        assert(""@ =~= Seq::<char>::empty());
    }
    assert(method@ == text_member(request@, "method"@));
    if str_eq(method, "initialize") {
        Route::Initialize
    } else if str_eq(method, "notifications/initialized") {
        Route::Silent
    } else if str_eq(method, "tools/list") {
        Route::ListTools
    } else if str_eq(method, "tools/call") {
        Route::CallTool(tool_of(called_name(request)))
    } else if request.get("id").is_some() {
        Route::Unknown
    } else {
        Route::Silent
    }
}

/// The name of the tool that a request calls.
pub fn called_name(request: &Json) -> (r: &str)
    ensures
        r@ == text_at(request@, seq!["params"@, "name"@]),
{
    proof {
        reveal_strlit("");
        assert(""@ =~= Seq::<char>::empty());
    }
    match follow(request, "params", "name") {
        Some(n) => match n.as_text() {
            Some(t) => t,
            None => "",
        },
        None => "",
    }
}

/// An argument of a call that is a text. One that is missing, or no text, is empty.
pub fn text_argument<'a>(request: &'a Json, name: &str) -> (r: &'a str)
    ensures
        r@ == text_at(request@, seq!["params"@, "arguments"@, name@]),
{
    proof {
        reveal_strlit("");
        assert(""@ =~= Seq::<char>::empty());
        lemma_three_keys(request@, "params"@, "arguments"@, name@);
    }
    match follow(request, "params", "arguments") {
        Some(a) => match a.get(name) {
            Some(v) => match v.as_text() {
                Some(t) => t,
                None => "",
            },
            None => "",
        },
        None => "",
    }
}

/// An argument of a call that is a truth value. One that is missing, or no truth value, is false.
pub fn flag_argument(request: &Json, name: &str) -> (r: bool)
    ensures
        r == flag_at(request@, seq!["params"@, "arguments"@, name@]),
{
    proof {
        lemma_three_keys(request@, "params"@, "arguments"@, name@);
    }
    match follow(request, "params", "arguments") {
        Some(a) => match a.get(name) {
            Some(v) => match v.as_bool() {
                Some(b) => b,
                None => false,
            },
            None => false,
        },
        None => false,
    }
}

/// The number that a value stands for, if it stands for one that fits.
pub open spec fn as_number(j: JsonV) -> Option<u32> {
    match j {
        JsonV::Number(t) => number_in(t),
        _ => None,
    }
}

/// The depth that a request asks to trace callers to: the number in its argument `depth`, or 1 where
/// that is missing, 0 or no number.
pub open spec fn trace_depth(request: JsonV) -> u32 {
    match at_path(request, seq!["params"@, "arguments"@, "depth"@]) {
        Some(j) => match as_number(j) {
            Some(n) => if n == 0 {
                1
            } else {
                n
            },
            None => 1,
        },
        None => 1,
    }
}

/// The depth that a request asks to trace callers to.
pub fn depth_argument(request: &Json) -> (r: u32)
    ensures
        r == trace_depth(request@),
{
    proof {
        lemma_three_keys(request@, "params"@, "arguments"@, "depth"@);
    }
    let found: Option<u32> = match follow(request, "params", "arguments") {
        Some(a) => match a.get("depth") {
            Some(Json::Number(t)) => read_number(t.as_str()),
            _ => None,
        },
        None => None,
    };
    match found {
        Some(n) => if n == 0 {
            1
        } else {
            n
        },
        None => 1,
    }
}

/// A notification, which has no id, is answered only if its method is one that is always answered.
pub proof fn law_notifications_silent(request: JsonV)
    requires
        member(request, "id"@) is None,
        text_member(request, "method"@) != "initialize"@,
        text_member(request, "method"@) != "tools/list"@,
        text_member(request, "method"@) != "tools/call"@,
    ensures
        route_of(request) == Route::Silent,
{
}

// ---------------------------------------------------------------------------------------------
// Answers
// ---------------------------------------------------------------------------------------------
/// A reply to the request with the given id. One without an id is answered with the id `null`.
pub open spec fn reply(id: Option<JsonV>, result: JsonV) -> JsonV {
    JsonV::Object(
        seq![
            ("jsonrpc"@, JsonV::Text("2.0"@)),
            (
                "id"@,
                match id {
                    Some(i) => i,
                    None => JsonV::Null,
                },
            ),
            ("result"@, result),
        ],
    )
}

/// What the id of a request is.
pub open spec fn id_value(id: Option<Json>) -> Option<JsonV> {
    match id {
        Some(i) => Some(i@),
        None => None,
    }
}

/// A reply to the request with the given id.
pub fn make_result(id: Option<Json>, data: Json) -> (r: Json)
    ensures
        r@ == reply(id_value(id), data@),
{
    let ghost want = reply(id_value(id), data@);
    let mut m: Vec<(String, Json)> = Vec::new();
    m.push(("jsonrpc".to_owned(), Json::text("2.0")));
    m.push(
        (
            "id".to_owned(),
            match id {
                Some(i) => i,
                None => Json::Null,
            },
        ),
    );
    m.push(("result".to_owned(), data));
    proof {
        lemma_object(m);
        assert(members(m@) =~= want->Object_0);
    }
    Json::Object(m)
}

/// The result of a call: one piece of text.
pub open spec fn content(text: Seq<char>) -> JsonV {
    JsonV::Object(
        seq![
            (
                "content"@,
                JsonV::Array(
                    seq![
                        JsonV::Object(
                            seq![("type"@, JsonV::Text("text"@)), ("text"@, JsonV::Text(text))],
                        ),
                    ],
                ),
            ),
        ],
    )
}

/// The result of a call, from the text of the tool's answer.
pub fn text_content(text: &str) -> (r: Json)
    ensures
        r@ == content(text@),
{
    let mut piece: Vec<(String, Json)> = Vec::new();
    piece.push(("type".to_owned(), Json::text("text")));
    piece.push(("text".to_owned(), Json::text(text)));
    proof {
        lemma_object(piece);
        assert(members(piece@) =~= seq![
            ("type"@, JsonV::Text("text"@)),
            ("text"@, JsonV::Text(text@)),
        ]);
    }
    let mut a: Vec<Json> = Vec::new();
    a.push(Json::Object(piece));
    proof {
        lemma_array(a);
        assert(values(a@) =~= seq![a@[0]@]);
    }
    let mut m: Vec<(String, Json)> = Vec::new();
    m.push(("content".to_owned(), Json::Array(a)));
    proof {
        lemma_object(m);
        assert(members(m@) =~= content(text@)->Object_0);
    }
    Json::Object(m)
}

/// The answer to a call of a tool that there is none of.
pub fn unknown_tool(name: &str) -> (r: Json)
    ensures
        r@ == JsonV::Object(seq![("error"@, JsonV::Text("Unknown tool: "@ + name@))]),
{
    single("error", Json::Text(joined_text("Unknown tool: ", name)))
}

/// The answer to a request that starts a session.
pub open spec fn session() -> JsonV {
    JsonV::Object(
        seq![
            ("protocolVersion"@, JsonV::Text("2024-11-05"@)),
            ("capabilities"@, JsonV::Object(seq![("tools"@, JsonV::Object(Seq::empty()))])),
            (
                "serverInfo"@,
                JsonV::Object(
                    seq![("name"@, JsonV::Text("event-horizon"@)), ("version"@, JsonV::Text("0.3.0"@))],
                ),
            ),
        ],
    )
}

/// An object without members.
pub fn empty_object() -> (r: Json)
    ensures
        r@ == JsonV::Object(Seq::empty()),
{
    let m: Vec<(String, Json)> = Vec::new();
    proof {
        lemma_object(m);
        assert(members(m@) =~= Seq::empty());
    }
    Json::Object(m)
}

/// The answer to a request that starts a session.
pub fn session_info() -> (r: Json)
    ensures
        r@ == session(),
{
    let mut c: Vec<(String, Json)> = Vec::new();
    c.push(("tools".to_owned(), empty_object()));
    let mut i: Vec<(String, Json)> = Vec::new();
    i.push(("name".to_owned(), Json::text("event-horizon")));
    i.push(("version".to_owned(), Json::text("0.3.0")));
    proof {
        lemma_object(c);
        lemma_object(i);
        assert(members(c@) =~= seq![("tools"@, JsonV::Object(Seq::empty()))]);
        assert(members(i@) =~= seq![
            ("name"@, JsonV::Text("event-horizon"@)),
            ("version"@, JsonV::Text("0.3.0"@)),
        ]);
    }
    let mut m: Vec<(String, Json)> = Vec::new();
    m.push(("protocolVersion".to_owned(), Json::text("2024-11-05")));
    m.push(("capabilities".to_owned(), Json::Object(c)));
    m.push(("serverInfo".to_owned(), Json::Object(i)));
    proof {
        lemma_object(m);
        assert(members(m@) =~= session()->Object_0);
    }
    Json::Object(m)
}

/// The pattern of the names of the functions of a file: its path with underscores for slashes, with
/// anything around it.
pub fn body_pattern(path: &str) -> (p: String)
    ensures
        p@ == "%"@ + with_char(path@, '/', '_') + "%"@,
{
    substring_pattern(replace_char(path, '/', '_').as_str())
}

/// What a full answer to a task adds.
pub struct FullAnswer {
    /// The files that use the phrases of the task, the heaviest first.
    pub callers: Vec<String>,
    /// The hidden dependencies of the best file, where there is one.
    pub deps: Option<Vec<String>>,
}

/// The answer to a task: the five best files, the best of them to edit, the tests to verify with and
/// the risk; with a plan, what to read, what may be coupled and what a change of the best file may
/// reach; in full, the first five callers and,
/// where there is a best file, the first five of its hidden dependencies.
pub open spec fn task_members(
    found: Seq<Seq<char>>,
    plan: Plan,
    radius: Option<Seq<Seq<char>>>,
    full: Option<(Seq<Seq<char>>, Option<Seq<Seq<char>>>)>,
) -> Seq<(Seq<char>, JsonV)> {
    let base = seq![
        ("schema_version"@, JsonV::Number("1"@)),
        ("files"@, text_array(slice_of(found, 0, 5))),
        (
            "edit"@,
            if found.len() > 0 {
                JsonV::Text(found[0])
            } else {
                JsonV::Null
            },
        ),
        ("verify"@, text_array(views(plan.verify@))),
        ("risk"@, JsonV::Text(risk_text(plan.risk))),
    ];
    let planned = match radius {
        Some(r) => base + seq![
            ("read_order"@, text_array(views(plan.read_first@))),
            ("coupled"@, text_array(views(plan.coupled@))),
            ("blast_radius"@, text_array(r)),
        ],
        None => base,
    };
    match full {
        Some((callers, deps)) => {
            let called = planned.push(("who_calls"@, text_array(slice_of(callers, 0, 5))));
            match deps {
                Some(d) => called.push(("latent_deps"@, text_array(slice_of(d, 0, 5)))),
                None => called,
            }
        },
        None => planned,
    }
}

/// The parts of a full answer.
pub open spec fn full_parts(full: Option<FullAnswer>) -> Option<
    (Seq<Seq<char>>, Option<Seq<Seq<char>>>),
> {
    match full {
        Some(f) => Some(
            (
                views(f.callers@),
                match f.deps {
                    Some(d) => Some(views(d@)),
                    None => None,
                },
            ),
        ),
        None => None,
    }
}

/// The strings of a list, if there is one.
pub open spec fn list_views(list: Option<Vec<String>>) -> Option<Seq<Seq<char>>> {
    match list {
        Some(v) => Some(views(v@)),
        None => None,
    }
}

/// The answer to a task, from the files that were found for it, the best first, and its plan.
/// `radius` holds the files that a change of the best one may reach, where the plan is asked for.
pub fn task_answer(
    found: &Vec<String>,
    plan: &Plan,
    radius: Option<Vec<String>>,
    full: Option<FullAnswer>,
) -> (r: Json)
    ensures
        r@ == JsonV::Object(
            task_members(views(found@), *plan, list_views(radius), full_parts(full)),
        ),
{
    let mut m: Vec<(String, Json)> = Vec::new();
    let files = part(found, 0, 5);
    m.push(("schema_version".to_owned(), Json::Number("1".to_owned())));
    m.push(("files".to_owned(), Json::texts(&files)));
    m.push(
        (
            "edit".to_owned(),
            if found.len() > 0 {
                assert(views(found@)[0] == found@[0]@);
                Json::text(found[0].as_str())
            } else {
                Json::Null
            },
        ),
    );
    m.push(("verify".to_owned(), Json::texts(&plan.verify)));
    m.push(("risk".to_owned(), Json::text(plan.risk.name())));
    let ghost fv = views(found@);
    let ghost base = task_members(fv, *plan, None, None);
    assert(members(m@) =~= base);
    let ghost reach = list_views(radius);
    if let Some(files) = &radius {
        m.push(("read_order".to_owned(), Json::texts(&plan.read_first)));
        m.push(("coupled".to_owned(), Json::texts(&plan.coupled)));
        m.push(("blast_radius".to_owned(), Json::texts(files)));
    }
    let ghost planned = task_members(fv, *plan, reach, None);
    assert(members(m@) =~= planned);
    let ghost parts = full_parts(full);
    match full {
        Some(f) => {
            let callers = part(&f.callers, 0, 5);
            m.push(("who_calls".to_owned(), Json::texts(&callers)));
            match f.deps {
                Some(d) => {
                    let deps = part(&d, 0, 5);
                    m.push(("latent_deps".to_owned(), Json::texts(&deps)));
                },
                None => {},
            }
            assert(members(m@) =~= task_members(fv, *plan, reach, parts));
        },
        None => {},
    }
    proof {
        lemma_object(m);
    }
    Json::Object(m)
}

/// The answer to a request for the plan of a task: the plan, what a change of the file to edit may
/// reach, and the tests that share vocabulary with it.
pub open spec fn plan_members(
    plan: Plan,
    radius: Seq<Seq<char>>,
    candidates: Seq<Seq<char>>,
) -> Seq<(Seq<char>, JsonV)> {
    seq![
        (
            "edit"@,
            match plan.edit {
                Some(e) => JsonV::Text(e@),
                None => JsonV::Null,
            },
        ),
        ("verify"@, text_array(views(plan.verify@))),
        ("read_first"@, text_array(views(plan.read_first@))),
        ("coupled"@, text_array(views(plan.coupled@))),
        ("risk"@, JsonV::Text(risk_text(plan.risk))),
        ("blast_radius"@, text_array(radius)),
        ("verify_candidates"@, text_array(candidates)),
    ]
}

/// The answer to a request for the plan of a task.
pub fn plan_answer(plan: &Plan, radius: &Vec<String>, candidates: &Vec<String>) -> (r: Json)
    ensures
        r@ == JsonV::Object(plan_members(*plan, views(radius@), views(candidates@))),
{
    let mut m: Vec<(String, Json)> = Vec::new();
    m.push(
        (
            "edit".to_owned(),
            match &plan.edit {
                Some(e) => Json::text(e.as_str()),
                None => Json::Null,
            },
        ),
    );
    m.push(("verify".to_owned(), Json::texts(&plan.verify)));
    m.push(("read_first".to_owned(), Json::texts(&plan.read_first)));
    m.push(("coupled".to_owned(), Json::texts(&plan.coupled)));
    m.push(("risk".to_owned(), Json::text(plan.risk.name())));
    m.push(("blast_radius".to_owned(), Json::texts(radius)));
    m.push(("verify_candidates".to_owned(), Json::texts(candidates)));
    proof {
        lemma_object(m);
        assert(members(m@) =~= plan_members(*plan, views(radius@), views(candidates@)));
    }
    Json::Object(m)
}

// ---------------------------------------------------------------------------------------------
// The list of tools
// ---------------------------------------------------------------------------------------------
/// What a tool is for.
pub open spec fn tool_description(t: Tool) -> Seq<char> {
    match t {
        Tool::Orient => "One-time session orientation. Returns the module map, the language breakdown, a tool guide and workflows. Call this first."@,
        Tool::CodeSearch => "Find the file to edit, its test, and risk. Three expansion tiers: default (compact paths), expand_plan (read order, coupled files and blast radius), expand_full (callers and hidden dependencies). Use when: editing code, finding test files, checking impact."@,
        Tool::PreEdit => "Risk assessment: edit target, files to read first, verification candidates, coupled files, risk level. Use when: you need detailed pre-edit guidance."@,
        Tool::Search => "Find files by conceptual content (not filename). Use when: you know what the code does but not where it lives. Input: free-form query of 1-5 keywords. Returns: top 10 files with relevance scores."@,
        Tool::WhoCalls => "Find all files that reference a specific identifier. Use when: refactoring a function and need to check callers. Input: exact identifier name (case-sensitive)."@,
        Tool::TraceCallers => "N-hop caller chain. Depth 1 is direct, depth 2 finds indirect callers. Use when: a change may reach past the direct callers. Input: exact identifier name, depth."@,
        Tool::HiddenDeps => "Find hidden cross-module dependencies that imports don't reveal. Use when: checking if a refactor reaches outside the current module. Input: file path relative to repo root."@,
        Tool::ExpandBody => "Expand a [HORIZON: hash] marker to full function body. Input: the hex hash from the marker."@,
        Tool::FindHash => "Find horizon hashes by function name. Use when: you know a function name and need its hash for expand_body. Input: function name or partial name."@,
        Tool::Health => "Index health: phrase count, file count, latency, and build time."@,
        Tool::SwitchRepo => "Change to another repository for the rest of the session. Input: path of the repository."@,
    }
}

impl Tool {
    /// What the tool is for.
    pub fn description(&self) -> (s: &'static str)
        ensures
            s@ == tool_description(*self),
    {
        match self {
            Tool::Orient => "One-time session orientation. Returns the module map, the language breakdown, a tool guide and workflows. Call this first.",
            Tool::CodeSearch => "Find the file to edit, its test, and risk. Three expansion tiers: default (compact paths), expand_plan (read order, coupled files and blast radius), expand_full (callers and hidden dependencies). Use when: editing code, finding test files, checking impact.",
            Tool::PreEdit => "Risk assessment: edit target, files to read first, verification candidates, coupled files, risk level. Use when: you need detailed pre-edit guidance.",
            Tool::Search => "Find files by conceptual content (not filename). Use when: you know what the code does but not where it lives. Input: free-form query of 1-5 keywords. Returns: top 10 files with relevance scores.",
            Tool::WhoCalls => "Find all files that reference a specific identifier. Use when: refactoring a function and need to check callers. Input: exact identifier name (case-sensitive).",
            Tool::TraceCallers => "N-hop caller chain. Depth 1 is direct, depth 2 finds indirect callers. Use when: a change may reach past the direct callers. Input: exact identifier name, depth.",
            Tool::HiddenDeps => "Find hidden cross-module dependencies that imports don't reveal. Use when: checking if a refactor reaches outside the current module. Input: file path relative to repo root.",
            Tool::ExpandBody => "Expand a [HORIZON: hash] marker to full function body. Input: the hex hash from the marker.",
            Tool::FindHash => "Find horizon hashes by function name. Use when: you know a function name and need its hash for expand_body. Input: function name or partial name.",
            Tool::Health => "Index health: phrase count, file count, latency, and build time.",
            Tool::SwitchRepo => "Change to another repository for the rest of the session. Input: path of the repository.",
        }
    }
}

/// The JSON type of an argument.
pub open spec fn kind_name(k: ArgumentKind) -> Seq<char> {
    match k {
        ArgumentKind::Text => "string"@,
        ArgumentKind::Flag => "boolean"@,
        ArgumentKind::Number => "integer"@,
    }
}

/// The arguments of a tool with their types.
pub open spec fn properties(arguments: Seq<(Seq<char>, ArgumentKind)>) -> Seq<(Seq<char>, JsonV)> {
    arguments.map_values(
        |a: (Seq<char>, ArgumentKind)|
            (a.0, JsonV::Object(seq![("type"@, JsonV::Text(kind_name(a.1)))])),
    )
}

/// An argument has to be given.
pub open spec fn is_required() -> spec_fn((Seq<char>, ArgumentKind)) -> bool {
    |a: (Seq<char>, ArgumentKind)| a.1 == ArgumentKind::Text
}

/// The names of the arguments that have to be given.
pub open spec fn required(arguments: Seq<(Seq<char>, ArgumentKind)>) -> Seq<Seq<char>> {
    arguments.filter(is_required()).map_values(|a: (Seq<char>, ArgumentKind)| a.0)
}

/// A tool as it is listed: its name, what it is for and its arguments.
pub open spec fn tool_value(t: Tool) -> JsonV {
    JsonV::Object(
        seq![
            ("name"@, JsonV::Text(tool_name(t))),
            ("description"@, JsonV::Text(tool_description(t))),
            (
                "inputSchema"@,
                JsonV::Object(
                    seq![
                        ("type"@, JsonV::Text("object"@)),
                        ("properties"@, JsonV::Object(properties(tool_arguments(t)))),
                        ("required"@, text_array(required(tool_arguments(t)))),
                    ],
                ),
            ),
        ],
    )
}

/// An object with one member.
fn single(key: &str, value: Json) -> (r: Json)
    ensures
        r@ == JsonV::Object(seq![(key@, value@)]),
{
    let ghost want = seq![(key@, value@)];
    let mut m: Vec<(String, Json)> = Vec::new();
    m.push((key.to_owned(), value));
    proof {
        lemma_object(m);
        assert(members(m@) =~= want);
    }
    Json::Object(m)
}

/// What the arguments of a tool have to be.
fn input_schema(t: Tool) -> (r: Json)
    ensures
        r@ == JsonV::Object(
            seq![
                ("type"@, JsonV::Text("object"@)),
                ("properties"@, JsonV::Object(properties(tool_arguments(t)))),
                ("required"@, text_array(required(tool_arguments(t)))),
            ],
        ),
{
    let arguments = t.arguments();
    let ghost all = tool_arguments(t);
    let mut typed: Vec<(String, Json)> = Vec::new();
    let mut needed: Vec<String> = Vec::new();
    let mut i: usize = 0;
    proof {
        reveal(Seq::filter);
        assert(views(needed@) =~= required(all.take(0)));
    }
    while i < arguments.len()
        invariant
            i <= arguments@.len(),
            all == arguments@.map_values(|a: (&'static str, ArgumentKind)| (a.0@, a.1)),
            typed@.len() == i,
            forall|k: int|
                0 <= k < i ==> (#[trigger] typed@[k]).0@ == properties(all)[k].0 && typed@[k].1@
                    == properties(all)[k].1,
            views(needed@) == required(all.take(i as int)),
        decreases arguments@.len() - i,
    {
        let (name, kind) = arguments[i];
        let ghost before = needed@;
        let ghost x = all[i as int];
        proof {
            assert(x == (name@, kind));
            assert(all.take(i + 1) =~= all.take(i as int).push(x));
            lemma_filter_push(all.take(i as int), x, is_required());
        }
        let json_type: &str = match kind {
            ArgumentKind::Text => {
                needed.push(name.to_owned());
                assert(views(needed@) =~= views(before).push(name@));
                assert(required(all.take(i + 1)) =~= required(all.take(i as int)).push(name@));
                "string"
            },
            ArgumentKind::Flag => "boolean",
            ArgumentKind::Number => "integer",
        };
        typed.push((name.to_owned(), single("type", Json::text(json_type))));
        i += 1;
    }
    assert(all.take(i as int) =~= all);
    proof {
        lemma_object(typed);
        assert(members(typed@) =~= properties(all));
    }
    let mut m: Vec<(String, Json)> = Vec::new();
    m.push(("type".to_owned(), Json::text("object")));
    m.push(("properties".to_owned(), Json::Object(typed)));
    m.push(("required".to_owned(), Json::texts(&needed)));
    proof {
        lemma_object(m);
        assert(members(m@) =~= seq![
            ("type"@, JsonV::Text("object"@)),
            ("properties"@, JsonV::Object(properties(all))),
            ("required"@, text_array(required(all))),
        ]);
    }
    Json::Object(m)
}

/// The answer to a request for the list of tools.
pub open spec fn tools_value() -> JsonV {
    JsonV::Object(
        seq![("tools"@, JsonV::Array(listed_tools().map_values(|t: Tool| tool_value(t))))],
    )
}

/// The answer to a request for the list of tools.
pub fn tools_answer() -> (r: Json)
    ensures
        r@ == tools_value(),
{
    let tools = all_tools();
    let mut a: Vec<Json> = Vec::new();
    let mut i: usize = 0;
    while i < tools.len()
        invariant
            i <= tools@.len(),
            a@.len() == i,
            forall|k: int| 0 <= k < i ==> (#[trigger] a@[k])@ == tool_value(tools@[k]),
        decreases tools@.len() - i,
    {
        let t = tools[i];
        let mut m: Vec<(String, Json)> = Vec::new();
        m.push(("name".to_owned(), Json::text(t.name())));
        m.push(("description".to_owned(), Json::text(t.description())));
        m.push(("inputSchema".to_owned(), input_schema(t)));
        proof {
            lemma_object(m);
            assert(members(m@) =~= tool_value(t)->Object_0);
        }
        a.push(Json::Object(m));
        i += 1;
    }
    proof {
        lemma_array(a);
        assert(values(a@) =~= listed_tools().map_values(|t: Tool| tool_value(t)));
    }
    single("tools", Json::Array(a))
}

// ---------------------------------------------------------------------------------------------
// Lists of files
// ---------------------------------------------------------------------------------------------
/// A file with its number of uses, which is written as a fraction.
pub open spec fn weighed(path: Seq<char>, n: nat) -> JsonV {
    JsonV::Array(seq![JsonV::Text(path), JsonV::Number(decimal(n) + ".0"@)])
}

/// A file with its number of uses.
fn weighed_file(path: &str, n: u64) -> (r: Json)
    ensures
        r@ == weighed(path@, n as nat),
{
    let mut a: Vec<Json> = Vec::new();
    a.push(Json::text(path));
    a.push(Json::Number(joined_text(decimal_text(n).as_str(), ".0")));
    proof {
        lemma_array(a);
        assert(values(a@) =~= weighed(path@, n as nat)->Array_0);
    }
    Json::Array(a)
}

/// The answer to a request for the callers of a name.
pub fn callers_answer(callers: &Vec<(String, u32)>) -> (r: Json)
    ensures
        r@ == JsonV::Object(
            seq![
                (
                    "callers"@,
                    JsonV::Array(
                        callers@.map_values(|c: (String, u32)| weighed(c.0@, c.1 as nat)),
                    ),
                ),
            ],
        ),
{
    let mut a: Vec<Json> = Vec::new();
    let mut i: usize = 0;
    while i < callers.len()
        invariant
            i <= callers@.len(),
            a@.len() == i,
            forall|k: int|
                0 <= k < i ==> (#[trigger] a@[k])@ == weighed(
                    callers@[k].0@,
                    callers@[k].1 as nat,
                ),
        decreases callers@.len() - i,
    {
        a.push(weighed_file(callers[i].0.as_str(), callers[i].1 as u64));
        i += 1;
    }
    proof {
        lemma_array(a);
        assert(values(a@) =~= callers@.map_values(|c: (String, u32)| weighed(c.0@, c.1 as nat)));
    }
    single("callers", Json::Array(a))
}

/// The answer to a request for the hidden dependencies of a file.
pub fn deps_answer(deps: &Vec<(String, u64)>) -> (r: Json)
    ensures
        r@ == JsonV::Object(
            seq![
                (
                    "deps"@,
                    JsonV::Array(deps@.map_values(|d: (String, u64)| weighed(d.0@, d.1 as nat))),
                ),
            ],
        ),
{
    let mut a: Vec<Json> = Vec::new();
    let mut i: usize = 0;
    while i < deps.len()
        invariant
            i <= deps@.len(),
            a@.len() == i,
            forall|k: int|
                0 <= k < i ==> (#[trigger] a@[k])@ == weighed(deps@[k].0@, deps@[k].1 as nat),
        decreases deps@.len() - i,
    {
        a.push(weighed_file(deps[i].0.as_str(), deps[i].1));
        i += 1;
    }
    proof {
        lemma_array(a);
        assert(values(a@) =~= deps@.map_values(|d: (String, u64)| weighed(d.0@, d.1 as nat)));
    }
    single("deps", Json::Array(a))
}

/// A file that was found for a query, with its score as it is written.
pub open spec fn candidate(path: Seq<char>, score: Seq<char>) -> JsonV {
    JsonV::Object(seq![("file"@, JsonV::Text(path)), ("score"@, JsonV::Number(score))])
}

/// The answer to a query: the files that were found, each with its score as it is written.
pub fn search_answer(found: &Vec<(String, String)>) -> (r: Json)
    ensures
        r@ == JsonV::Object(
            seq![
                (
                    "candidates"@,
                    JsonV::Array(found@.map_values(|c: (String, String)| candidate(c.0@, c.1@))),
                ),
            ],
        ),
{
    let mut a: Vec<Json> = Vec::new();
    let mut i: usize = 0;
    while i < found.len()
        invariant
            i <= found@.len(),
            a@.len() == i,
            forall|k: int|
                0 <= k < i ==> (#[trigger] a@[k])@ == candidate(found@[k].0@, found@[k].1@),
        decreases found@.len() - i,
    {
        let mut m: Vec<(String, Json)> = Vec::new();
        m.push(("file".to_owned(), Json::text(found[i].0.as_str())));
        m.push(("score".to_owned(), Json::Number(found[i].1.clone())));
        proof {
            lemma_object(m);
            assert(members(m@) =~= candidate(
                found@[i as int].0@,
                found@[i as int].1@,
            )->Object_0);
        }
        a.push(Json::Object(m));
        i += 1;
    }
    proof {
        lemma_array(a);
        assert(values(a@) =~= found@.map_values(|c: (String, String)| candidate(c.0@, c.1@)));
    }
    single("candidates", Json::Array(a))
}

// ---------------------------------------------------------------------------------------------
// Functions, health and other repositories
// ---------------------------------------------------------------------------------------------
/// The answer to a request for the body of a function.
pub fn body_answer(body: &str) -> (r: Json)
    ensures
        r@ == JsonV::Object(seq![("body"@, JsonV::Text(body@))]),
{
    single("body", Json::text(body))
}

/// The answer to a request for the hashes of functions: each hash with the name of its function.
pub fn hashes_answer(found: &Vec<(String, String)>) -> (r: Json)
    ensures
        r@ == JsonV::Object(
            seq![
                (
                    "results"@,
                    JsonV::Array(
                        found@.map_values(|f: (String, String)| text_array(seq![f.0@, f.1@])),
                    ),
                ),
            ],
        ),
{
    let mut a: Vec<Json> = Vec::new();
    let mut i: usize = 0;
    while i < found.len()
        invariant
            i <= found@.len(),
            a@.len() == i,
            forall|k: int|
                0 <= k < i ==> (#[trigger] a@[k])@ == text_array(
                    seq![found@[k].0@, found@[k].1@],
                ),
        decreases found@.len() - i,
    {
        let mut pair: Vec<String> = Vec::new();
        pair.push(found[i].0.clone());
        pair.push(found[i].1.clone());
        assert(views(pair@) =~= seq![found@[i as int].0@, found@[i as int].1@]);
        a.push(Json::texts(&pair));
        i += 1;
    }
    proof {
        lemma_array(a);
        assert(values(a@) =~= found@.map_values(
            |f: (String, String)| text_array(seq![f.0@, f.1@]),
        ));
    }
    single("results", Json::Array(a))
}

/// An answer that tells what went wrong.
pub fn error_answer(error: &str) -> (r: Json)
    ensures
        r@ == JsonV::Object(seq![("error"@, JsonV::Text(error@))]),
{
    single("error", Json::text(error))
}

/// The answer to a request to change to another repository, whose index holds `phrases` phrases.
pub fn switch_answer(repo: &str, phrases: u64) -> (r: Json)
    ensures
        r@ == JsonV::Object(
            seq![
                ("repo"@, JsonV::Text(repo@)),
                ("phrases"@, JsonV::Number(decimal(phrases as nat))),
            ],
        ),
{
    let mut m: Vec<(String, Json)> = Vec::new();
    m.push(("repo".to_owned(), Json::text(repo)));
    m.push(("phrases".to_owned(), Json::Number(decimal_text(phrases))));
    proof {
        lemma_object(m);
        assert(members(m@) =~= seq![
            ("repo"@, JsonV::Text(repo@)),
            ("phrases"@, JsonV::Number(decimal(phrases as nat))),
        ]);
    }
    Json::Object(m)
}

/// The health of an index. Fractions are kept as they are written.
pub struct HealthReport {
    /// How many rows it has.
    pub phrases: u64,
    /// How many files it knows.
    pub files: u64,
    /// The average length of a file.
    pub avgdl: String,
    /// When it was built, in seconds.
    pub build_date: String,
    /// When it was built, for a reader.
    pub build_time_readable: String,
    /// How long it took to find out, in milliseconds.
    pub ms: String,
}

/// The answer to a request for the health of the index.
pub open spec fn health_members(h: HealthReport) -> Seq<(Seq<char>, JsonV)> {
    seq![
        ("status"@, JsonV::Text("ok"@)),
        ("ok"@, JsonV::Bool(true)),
        ("phrases"@, JsonV::Number(decimal(h.phrases as nat))),
        ("files"@, JsonV::Number(decimal(h.files as nat))),
        ("avgdl"@, JsonV::Number(h.avgdl@)),
        ("build_date"@, JsonV::Text(h.build_date@)),
        ("build_time_readable"@, JsonV::Text(h.build_time_readable@)),
        ("ms"@, JsonV::Number(h.ms@)),
    ]
}

/// The answer to a request for the health of the index.
pub fn health_answer(h: &HealthReport) -> (r: Json)
    ensures
        r@ == JsonV::Object(health_members(*h)),
{
    let mut m: Vec<(String, Json)> = Vec::new();
    m.push(("status".to_owned(), Json::text("ok")));
    m.push(("ok".to_owned(), Json::Bool(true)));
    m.push(("phrases".to_owned(), Json::Number(decimal_text(h.phrases))));
    m.push(("files".to_owned(), Json::Number(decimal_text(h.files))));
    m.push(("avgdl".to_owned(), Json::Number(h.avgdl.clone())));
    m.push(("build_date".to_owned(), Json::text(h.build_date.as_str())));
    m.push(("build_time_readable".to_owned(), Json::text(h.build_time_readable.as_str())));
    m.push(("ms".to_owned(), Json::Number(h.ms.clone())));
    proof {
        lemma_object(m);
        assert(members(m@) =~= health_members(*h));
    }
    Json::Object(m)
}

// ---------------------------------------------------------------------------------------------
// Chains of callers
// ---------------------------------------------------------------------------------------------
/// One step of a chain of callers.
pub open spec fn hop_value(depth: int, files: Seq<Seq<char>>) -> JsonV {
    JsonV::Object(
        seq![("depth"@, JsonV::Number(decimal(depth as nat))), ("files"@, text_array(files))],
    )
}

/// The answer to a trace of callers: the files of each step, with the number of calls.
pub open spec fn trace_value(hops: Seq<Vec<String>>) -> JsonV {
    JsonV::Object(
        seq![
            (
                "hops"@,
                JsonV::Array(Seq::new(hops.len(), |i: int| hop_value(i + 1, views(hops[i]@)))),
            ),
        ],
    )
}

/// The answer to a trace of callers.
pub fn trace_answer(trace: &Trace) -> (r: Json)
    ensures
        r@ == trace_value(trace.hops@),
{
    let mut a: Vec<Json> = Vec::new();
    let mut i: usize = 0;
    while i < trace.hops.len()
        invariant
            i <= trace.hops@.len(),
            a@.len() == i,
            forall|k: int|
                0 <= k < i ==> (#[trigger] a@[k])@ == hop_value(k + 1, views(trace.hops@[k]@)),
        decreases trace.hops@.len() - i,
    {
        let mut m: Vec<(String, Json)> = Vec::new();
        m.push(("depth".to_owned(), Json::Number(decimal_text(i as u64 + 1))));
        m.push(("files".to_owned(), Json::texts(&trace.hops[i])));
        proof {
            lemma_object(m);
            assert(members(m@) =~= hop_value(i + 1, views(trace.hops@[i as int]@))->Object_0);
        }
        a.push(Json::Object(m));
        i += 1;
    }
    proof {
        lemma_array(a);
        assert(values(a@) =~= Seq::new(
            trace.hops@.len(),
            |i: int| hop_value(i + 1, views(trace.hops@[i]@)),
        ));
    }
    let mut m: Vec<(String, Json)> = Vec::new();
    m.push(("hops".to_owned(), Json::Array(a)));
    proof {
        lemma_object(m);
        assert(members(m@) =~= trace_value(trace.hops@)->Object_0);
    }
    Json::Object(m)
}

// ---------------------------------------------------------------------------------------------
// Languages
// ---------------------------------------------------------------------------------------------
/// What a path holds behind its last dot, or all of it.
pub open spec fn extension(path: Seq<char>) -> Seq<char> {
    path.skip(last_index(path, '.') + 1)
}

/// The extensions of up to 6 bytes of the paths.
pub open spec fn extensions(paths: Seq<Seq<char>>) -> Seq<Seq<char>> {
    paths.map_values(|p: Seq<char>| extension(p)).filter(
        |e: Seq<char>| encode_utf8(e).len() <= 6,
    )
}

/// `r` lists the 8 most frequent extensions of the paths, with how often they occur.
pub open spec fn are_languages(r: Seq<(String, u64)>, paths: Seq<Seq<char>>) -> bool {
    exists|items: Seq<(String, u32)>|
        ones(items, extensions(paths)) && #[trigger] ranks(r, items, 8)
}

/// The languages of a repository: the 8 most frequent extensions of its files, with how many files
/// have them. An extension of over 6 bytes does not count.
pub fn language_breakdown(paths: &Vec<String>) -> (r: Vec<(String, u64)>)
    ensures
        are_languages(r@, views(paths@)),
{
    let mut items: Vec<(String, u32)> = Vec::new();
    let ghost all = views(paths@).map_values(|p: Seq<char>| extension(p));
    let ghost short = |e: Seq<char>| encode_utf8(e).len() <= 6;
    let mut i: usize = 0;
    proof {
        reveal(Seq::filter);
    }
    while i < paths.len()
        invariant
            i <= paths@.len(),
            all == views(paths@).map_values(|p: Seq<char>| extension(p)),
            short == (|e: Seq<char>| encode_utf8(e).len() <= 6),
            ones(items@, all.take(i as int).filter(short)),
        decreases paths@.len() - i,
    {
        proof {
            assert(all.take(i + 1) =~= all.take(i as int).push(all[i as int]));
            lemma_filter_push(all.take(i as int), all[i as int], short);
            assert(all[i as int] == extension(paths@[i as int]@));
        }
        let e = after_last(paths[i].as_str(), '.');
        if e.as_str().as_bytes().len() <= 6 {
            items.push((e, 1));
        }
        i += 1;
    }
    assert(all.take(i as int) =~= all);
    let m = tally(&items);
    let r = ranked(&m, 8);
    proof {
        assert(m.wf() && is_tally(m@, items@) && is_ranked(r@, m.entries@, 8));
        assert(ranks(r@, items@, 8));
        assert(ones(items@, extensions(views(paths@))));
    }
    r
}

// ---------------------------------------------------------------------------------------------
// Modules
// ---------------------------------------------------------------------------------------------
/// The modules that the paths stand in. A path at the root stands in none.
pub open spec fn modules_of(paths: Seq<Seq<char>>) -> Seq<Seq<char>> {
    paths.filter(in_module()).map_values(|p: Seq<char>| module_of(p))
}

/// A path stands in a module.
pub open spec fn in_module() -> spec_fn(Seq<char>) -> bool {
    |p: Seq<char>| last_index(p, '/') >= 0
}

/// `r` lists the 8 modules with the most paths, with how many they have.
pub open spec fn are_modules(r: Seq<(String, u64)>, paths: Seq<Seq<char>>) -> bool {
    exists|items: Seq<(String, u32)>|
        ones(items, modules_of(paths)) && #[trigger] ranks(r, items, 8)
}

/// The module map of a repository: the 8 modules with the most files, with how many they have.
pub fn module_map(paths: &Vec<String>) -> (r: Vec<(String, u64)>)
    ensures
        are_modules(r@, views(paths@)),
{
    let mut items: Vec<(String, u32)> = Vec::new();
    let ghost all = views(paths@);
    let mut i: usize = 0;
    proof {
        reveal(Seq::filter);
    }
    while i < paths.len()
        invariant
            i <= paths@.len(),
            all == views(paths@),
            ones(items@, modules_of(all.take(i as int))),
        decreases paths@.len() - i,
    {
        let ghost before = items@;
        let ghost x = all[i as int];
        proof {
            assert(all.take(i + 1) =~= all.take(i as int).push(x));
            lemma_filter_push(all.take(i as int), x, in_module());
            assert(x == paths@[i as int]@);
        }
        if let Some(module) = before_last(paths[i].as_str(), '/') {
            items.push((module, 1));
            assert(modules_of(all.take(i + 1)) =~= modules_of(all.take(i as int)).push(
                module_of(x),
            ));
        }
        i += 1;
    }
    assert(all.take(i as int) =~= all);
    let m = tally(&items);
    let r = ranked(&m, 8);
    proof {
        assert(m.wf() && is_tally(m@, items@) && is_ranked(r@, m.entries@, 8));
        assert(ranks(r@, items@, 8));
        assert(ones(items@, modules_of(views(paths@))));
    }
    r
}

// ---------------------------------------------------------------------------------------------
// Orientation
// ---------------------------------------------------------------------------------------------
/// One object for each item: its name under the one key, its number under the other.
pub open spec fn counted_items(items: Seq<(String, u64)>, name: Seq<char>, count: Seq<char>) -> JsonV {
    JsonV::Array(
        items.map_values(
            |e: (String, u64)|
                JsonV::Object(
                    seq![(name, JsonV::Text(e.0@)), (count, JsonV::Number(decimal(e.1 as nat)))],
                ),
        ),
    )
}

/// One object for each item.
fn counted_list(items: &Vec<(String, u64)>, name: &str, count: &str) -> (r: Json)
    ensures
        r@ == counted_items(items@, name@, count@),
{
    let mut a: Vec<Json> = Vec::new();
    let mut i: usize = 0;
    while i < items.len()
        invariant
            i <= items@.len(),
            a@.len() == i,
            forall|k: int|
                0 <= k < i ==> (#[trigger] a@[k])@ == JsonV::Object(
                    seq![
                        (name@, JsonV::Text(items@[k].0@)),
                        (count@, JsonV::Number(decimal(items@[k].1 as nat))),
                    ],
                ),
        decreases items@.len() - i,
    {
        let mut m: Vec<(String, Json)> = Vec::new();
        m.push((name.to_owned(), Json::text(items[i].0.as_str())));
        m.push((count.to_owned(), Json::Number(decimal_text(items[i].1))));
        proof {
            lemma_object(m);
            assert(members(m@) =~= seq![
                (name@, JsonV::Text(items@[i as int].0@)),
                (count@, JsonV::Number(decimal(items@[i as int].1 as nat))),
            ]);
        }
        a.push(Json::Object(m));
        i += 1;
    }
    proof {
        lemma_array(a);
        assert(values(a@) =~= counted_items(items@, name@, count@)->Array_0);
    }
    Json::Array(a)
}

/// A workflow: the tools to use, and when.
pub open spec fn workflow_value(tools: Seq<Seq<char>>, about: Seq<char>) -> JsonV {
    JsonV::Object(seq![("tools"@, text_array(tools)), ("description"@, JsonV::Text(about))])
}

/// A workflow.
fn workflow(tools: Vec<String>, about: &str) -> (r: Json)
    ensures
        r@ == workflow_value(views(tools@), about@),
{
    let mut m: Vec<(String, Json)> = Vec::new();
    m.push(("tools".to_owned(), Json::texts(&tools)));
    m.push(("description".to_owned(), Json::text(about)));
    proof {
        lemma_object(m);
        assert(members(m@) =~= workflow_value(views(tools@), about@)->Object_0);
    }
    Json::Object(m)
}

/// The workflows that the tools are made for.
pub open spec fn workflows() -> JsonV {
    JsonV::Object(
        seq![
            (
                "pre_edit"@,
                workflow_value(
                    seq![
                        "code_search(task=...) -> default tier"@,
                        "who_calls(name=...) -> if refactoring"@,
                        "hidden_deps(file=...) -> if cross-module"@,
                    ],
                    "Use code_search first. who_calls/hidden_deps for targeted questions."@,
                ),
            ),
            (
                "discovery"@,
                workflow_value(
                    seq!["search(query=...)"@],
                    "Find files when you know the concept but not the location."@,
                ),
            ),
            (
                "impact"@,
                workflow_value(
                    seq!["who_calls(name=...)"@, "hidden_deps(file=...)"@],
                    "Check callers and hidden dependencies."@,
                ),
            ),
        ],
    )
}

/// The workflows that the tools are made for.
fn workflow_list() -> (r: Json)
    ensures
        r@ == workflows(),
{
    let mut before: Vec<String> = Vec::new();
    before.push("code_search(task=...) -> default tier".to_owned());
    before.push("who_calls(name=...) -> if refactoring".to_owned());
    before.push("hidden_deps(file=...) -> if cross-module".to_owned());
    let mut find: Vec<String> = Vec::new();
    find.push("search(query=...)".to_owned());
    let mut check: Vec<String> = Vec::new();
    check.push("who_calls(name=...)".to_owned());
    check.push("hidden_deps(file=...)".to_owned());
    proof {
        assert(views(before@) =~= seq![
            "code_search(task=...) -> default tier"@,
            "who_calls(name=...) -> if refactoring"@,
            "hidden_deps(file=...) -> if cross-module"@,
        ]);
        assert(views(find@) =~= seq!["search(query=...)"@]);
        assert(views(check@) =~= seq!["who_calls(name=...)"@, "hidden_deps(file=...)"@]);
    }
    let mut m: Vec<(String, Json)> = Vec::new();
    m.push(
        (
            "pre_edit".to_owned(),
            workflow(
                before,
                "Use code_search first. who_calls/hidden_deps for targeted questions.",
            ),
        ),
    );
    m.push(
        (
            "discovery".to_owned(),
            workflow(find, "Find files when you know the concept but not the location."),
        ),
    );
    m.push(("impact".to_owned(), workflow(check, "Check callers and hidden dependencies.")));
    proof {
        lemma_object(m);
        assert(members(m@) =~= workflows()->Object_0);
    }
    Json::Object(m)
}

/// When to use a tool.
pub open spec fn use_when(about: Seq<char>) -> JsonV {
    JsonV::Object(seq![("use_when"@, JsonV::Text(about))])
}

/// When to use a tool.
fn use_hint(about: &str) -> (r: Json)
    ensures
        r@ == use_when(about@),
{
    let mut m: Vec<(String, Json)> = Vec::new();
    m.push(("use_when".to_owned(), Json::text(about)));
    proof {
        lemma_object(m);
        assert(members(m@) =~= use_when(about@)->Object_0);
    }
    Json::Object(m)
}

/// When to use which tool.
pub open spec fn tool_guide() -> JsonV {
    JsonV::Object(
        seq![
            (
                "code_search"@,
                JsonV::Object(
                    seq![
                        (
                            "use_when"@,
                            JsonV::Text("editing code and need target files + test candidates"@),
                        ),
                        ("expand_plan"@, JsonV::Text("adds read_order and blast radius"@)),
                        ("expand_full"@, JsonV::Text("adds who_calls chains and hidden deps"@)),
                    ],
                ),
            ),
            ("search"@, use_when("need to find files by concept (not filename)"@)),
            ("pre_edit"@, use_when("need full plan beyond code_search default"@)),
            (
                "who_calls"@,
                use_when("refactoring a specific function/type and need to check callers"@),
            ),
            ("hidden_deps"@, use_when("need hidden cross-module coupling"@)),
            (
                "expand_body"@,
                use_when("a [HORIZON: hash] marker appears and you need the function body"@),
            ),
            ("find_hash"@, use_when("you know a function name and need its hash"@)),
        ],
    )
}

/// When to use which tool.
fn tool_hints() -> (r: Json)
    ensures
        r@ == tool_guide(),
{
    let mut c: Vec<(String, Json)> = Vec::new();
    c.push(
        (
            "use_when".to_owned(),
            Json::text("editing code and need target files + test candidates"),
        ),
    );
    c.push(("expand_plan".to_owned(), Json::text("adds read_order and blast radius")));
    c.push(("expand_full".to_owned(), Json::text("adds who_calls chains and hidden deps")));
    proof {
        lemma_object(c);
        assert(members(c@) =~= tool_guide()->Object_0[0].1->Object_0);
    }
    let mut m: Vec<(String, Json)> = Vec::new();
    m.push(("code_search".to_owned(), Json::Object(c)));
    m.push(("search".to_owned(), use_hint("need to find files by concept (not filename)")));
    m.push(("pre_edit".to_owned(), use_hint("need full plan beyond code_search default")));
    m.push(
        (
            "who_calls".to_owned(),
            use_hint("refactoring a specific function/type and need to check callers"),
        ),
    );
    m.push(("hidden_deps".to_owned(), use_hint("need hidden cross-module coupling")));
    m.push(
        (
            "expand_body".to_owned(),
            use_hint("a [HORIZON: hash] marker appears and you need the function body"),
        ),
    );
    m.push(("find_hash".to_owned(), use_hint("you know a function name and need its hash")));
    proof {
        lemma_object(m);
        assert(members(m@) =~= tool_guide()->Object_0);
    }
    Json::Object(m)
}

/// What the answer to an agent that finds its way around a repository holds: how many files there
/// are, their languages, the workflows and the guide to the tools.
pub open spec fn orient_members(n_files: u64, languages: Seq<(String, u64)>) -> Seq<
    (Seq<char>, JsonV),
> {
    seq![
        ("schema_version"@, JsonV::Number("1"@)),
        ("n_files"@, JsonV::Number(decimal(n_files as nat))),
        ("languages"@, counted_items(languages, "ext"@, "count"@)),
        ("workflows"@, workflows()),
        ("tool_guide"@, tool_guide()),
    ]
}

/// The answer to an agent that finds its way around a repository with `n_files` files in the given
/// languages.
pub fn orient_answer(n_files: u64, languages: &Vec<(String, u64)>) -> (r: Json)
    ensures
        r@ == JsonV::Object(orient_members(n_files, languages@)),
{
    let mut m: Vec<(String, Json)> = Vec::new();
    m.push(("schema_version".to_owned(), Json::Number("1".to_owned())));
    m.push(("n_files".to_owned(), Json::Number(decimal_text(n_files))));
    m.push(("languages".to_owned(), counted_list(languages, "ext", "count")));
    m.push(("workflows".to_owned(), workflow_list()));
    m.push(("tool_guide".to_owned(), tool_hints()));
    proof {
        lemma_object(m);
        assert(members(m@) =~= orient_members(n_files, languages@));
    }
    Json::Object(m)
}

/// An answer with the module map of the repository behind what it holds. One that is no object stays
/// as it is.
pub open spec fn mapped(answer: JsonV, modules: Seq<(String, u64)>) -> JsonV {
    match answer {
        JsonV::Object(m) => JsonV::Object(
            m.push(("modules"@, counted_items(modules, "module"@, "files"@))),
        ),
        other => other,
    }
}

/// Adds the module map of the repository to an answer.
pub fn with_modules(answer: Json, modules: &Vec<(String, u64)>) -> (r: Json)
    ensures
        r@ == mapped(answer@, modules@),
{
    match answer {
        Json::Object(m) => {
            let ghost before = m;
            let mut m = m;
            m.push(("modules".to_owned(), counted_list(modules, "module", "files")));
            proof {
                lemma_object(before);
                lemma_object(m);
                assert(members(m@) =~= members(before@).push(
                    ("modules"@, counted_items(modules@, "module"@, "files"@)),
                ));
            }
            Json::Object(m)
        },
        other => other,
    }
}

// ---------------------------------------------------------------------------------------------
// Laws
// ---------------------------------------------------------------------------------------------
/// The names by which tools are called: each of these is one of a tool, and nothing else is.
pub proof fn law_tool_names(n: Seq<char>)
    ensures
        tool_named(n) is Some <==> seq![
            "orient"@, "hologram_orient"@, "code_search"@, "hologram_task"@, "pre_edit"@,
            "hologram_plan"@, "search"@, "holo_search"@, "who_calls"@, "trace_callers"@,
            "hidden_deps"@, "latent_deps"@, "expand_body"@, "cross_horizon"@, "find_hash"@,
            "search_horizon"@, "health"@, "eh_health"@, "switch_repo"@,
        ].contains(n),
{
    let t: Seq<Seq<char>> = seq![
        "orient"@, "hologram_orient"@, "code_search"@, "hologram_task"@, "pre_edit"@,
        "hologram_plan"@, "search"@, "holo_search"@, "who_calls"@, "trace_callers"@,
        "hidden_deps"@, "latent_deps"@, "expand_body"@, "cross_horizon"@, "find_hash"@,
        "search_horizon"@, "health"@, "eh_health"@, "switch_repo"@,
    ];
    if tool_named(n) is Some {
        assert(t[0] == n || t[1] == n || t[2] == n || t[3] == n || t[4] == n || t[5] == n || t[6] == n
            || t[7] == n || t[8] == n || t[9] == n || t[10] == n || t[11] == n || t[12] == n || t[13]
            == n || t[14] == n || t[15] == n || t[16] == n || t[17] == n || t[18] == n);
    }
}

/// The tool behind each name.
pub proof fn law_tool_behind_name()
    ensures
        tool_named("orient"@) == Some(Tool::Orient),
        tool_named("hologram_orient"@) == Some(Tool::Orient),
        tool_named("code_search"@) == Some(Tool::CodeSearch),
        tool_named("hologram_task"@) == Some(Tool::CodeSearch),
        tool_named("pre_edit"@) == Some(Tool::PreEdit),
        tool_named("hologram_plan"@) == Some(Tool::PreEdit),
        tool_named("search"@) == Some(Tool::Search),
        tool_named("holo_search"@) == Some(Tool::Search),
        tool_named("who_calls"@) == Some(Tool::WhoCalls),
        tool_named("trace_callers"@) == Some(Tool::TraceCallers),
        tool_named("hidden_deps"@) == Some(Tool::HiddenDeps),
        tool_named("latent_deps"@) == Some(Tool::HiddenDeps),
        tool_named("expand_body"@) == Some(Tool::ExpandBody),
        tool_named("cross_horizon"@) == Some(Tool::ExpandBody),
        tool_named("find_hash"@) == Some(Tool::FindHash),
        tool_named("search_horizon"@) == Some(Tool::FindHash),
        tool_named("health"@) == Some(Tool::Health),
        tool_named("eh_health"@) == Some(Tool::Health),
        tool_named("switch_repo"@) == Some(Tool::SwitchRepo),
{
    law_tools_found(Tool::Orient, Tool::Orient, "orient"@);
    law_tools_found(Tool::CodeSearch, Tool::CodeSearch, "code_search"@);
    law_tools_found(Tool::PreEdit, Tool::PreEdit, "pre_edit"@);
    law_tools_found(Tool::Search, Tool::Search, "search"@);
    law_tools_found(Tool::WhoCalls, Tool::WhoCalls, "who_calls"@);
    law_tools_found(Tool::TraceCallers, Tool::TraceCallers, "trace_callers"@);
    law_tools_found(Tool::HiddenDeps, Tool::HiddenDeps, "hidden_deps"@);
    law_tools_found(Tool::ExpandBody, Tool::ExpandBody, "expand_body"@);
    law_tools_found(Tool::FindHash, Tool::FindHash, "find_hash"@);
    law_tools_found(Tool::Health, Tool::Health, "health"@);
    law_tools_found(Tool::SwitchRepo, Tool::SwitchRepo, "switch_repo"@);
}

/// What tools have to be told: all but two take one text, and it comes first; two flags and one
/// number are all that may be added.
pub proof fn law_tool_arguments(t: Tool, i: int)
    ensures
        tool_arguments(t).len() == 0 <==> t == Tool::Orient || t == Tool::Health,
        tool_arguments(t).len() > 0 ==> tool_arguments(t)[0].1 == ArgumentKind::Text,
        0 < i < tool_arguments(t).len() ==> tool_arguments(t)[i].1 != ArgumentKind::Text,
        tool_arguments(t).len() > 1 <==> t == Tool::CodeSearch || t == Tool::TraceCallers,
        t == Tool::CodeSearch || t == Tool::PreEdit ==> tool_arguments(t)[0].0 == "task"@,
        t == Tool::Search ==> tool_arguments(t)[0].0 == "query"@,
        t == Tool::WhoCalls || t == Tool::TraceCallers || t == Tool::FindHash
            ==> tool_arguments(t)[0].0 == "name"@,
        t == Tool::HiddenDeps ==> tool_arguments(t)[0].0 == "file"@,
        t == Tool::ExpandBody ==> tool_arguments(t)[0].0 == "hash"@,
        t == Tool::SwitchRepo ==> tool_arguments(t)[0].0 == "repo"@,
        tool_arguments(Tool::CodeSearch).len() == 3,
        tool_arguments(Tool::CodeSearch)[1] == ("expand_plan"@, ArgumentKind::Flag),
        tool_arguments(Tool::CodeSearch)[2] == ("expand_full"@, ArgumentKind::Flag),
        tool_arguments(Tool::TraceCallers).len() == 2,
        tool_arguments(Tool::TraceCallers)[1] == ("depth"@, ArgumentKind::Number),
{
}

/// What is required of a call: the texts among the arguments, in order, and nothing else. Every
/// argument is described by its kind.
pub proof fn law_texts_required(
    arguments: Seq<(Seq<char>, ArgumentKind)>,
    a: (Seq<char>, ArgumentKind),
)
    ensures
        required(Seq::empty()).len() == 0,
        a.1 == ArgumentKind::Text ==> required(arguments.push(a)) == required(arguments).push(a.0),
        a.1 != ArgumentKind::Text ==> required(arguments.push(a)) == required(arguments),
        properties(arguments.push(a)).len() == arguments.len() + 1,
        properties(arguments.push(a)).last().0 == a.0,
        properties(arguments.push(a)).last().1 == JsonV::Object(
            seq![
                (
                    "type"@,
                    JsonV::Text(
                        match a.1 {
                            ArgumentKind::Text => "string"@,
                            ArgumentKind::Flag => "boolean"@,
                            ArgumentKind::Number => "integer"@,
                        },
                    ),
                ),
            ],
        ),
{
    lemma_filter_push(arguments, a, is_required());
    if a.1 == ArgumentKind::Text {
        assert(required(arguments.push(a)) =~= required(arguments).push(a.0));
    }
    reveal(Seq::filter);
}

/// Where a request goes: by its method alone where that is one of the four that are known, and else
/// by whether an answer can be sent.
pub proof fn law_routes(request: JsonV)
    ensures
        route_of(request) == Route::Initialize <==> text_member(request, "method"@) == "initialize"@,
        route_of(request) == Route::ListTools <==> text_member(request, "method"@) == "tools/list"@,
        text_member(request, "method"@) == "tools/call"@ <==> route_of(request) is CallTool,
        text_member(request, "method"@) == "tools/call"@ ==> route_of(request) == Route::CallTool(
            tool_named(text_at(request, seq!["params"@, "name"@])),
        ),
        text_member(request, "method"@) == "notifications/initialized"@ ==> route_of(request)
            == Route::Silent,
        route_of(request) == Route::Unknown ==> member(request, "id"@) is Some,
        route_of(request) == Route::Silent ==> member(request, "id"@) is None || text_member(
            request,
            "method"@,
        ) == "notifications/initialized"@,
{
    reveal_strlit("initialize");
    reveal_strlit("tools/list");
    reveal_strlit("tools/call");
    reveal_strlit("notifications/initialized");
    assert("initialize"@[0] == 'i' && "tools/list"@[6] == 'l' && "tools/call"@[6] == 'c');
    assert("initialize"@.len() == 10 && "notifications/initialized"@.len() == 25);
    assert("tools/list"@[0] == 't' && "tools/list"@.len() == 10 && "tools/call"@.len() == 10);
}

/// What is found along a path: the member of the member; where one is missing or is of another kind,
/// the text is empty and the flag is not set.
pub proof fn law_values_along_path(j: JsonV, a: Seq<char>, rest: Seq<Seq<char>>, t: Seq<char>, b: bool)
    ensures
        at_path(j, Seq::empty()) == Some(j),
        member(j, a) is Some ==> at_path(j, seq![a] + rest) == at_path(member(j, a)->0, rest),
        member(j, a) is None ==> at_path(j, seq![a] + rest) is None,
        at_path(j, rest) == Some(JsonV::Text(t)) ==> text_at(j, rest) == t,
        at_path(j, rest) is None || !(at_path(j, rest)->0 is Text) ==> text_at(j, rest).len() == 0,
        flag_at(j, rest) <==> at_path(j, rest) == Some(JsonV::Bool(true)),
        member(j, a) == Some(JsonV::Text(t)) ==> text_member(j, a) == t,
        member(j, a) is None || !(member(j, a)->0 is Text) ==> text_member(j, a).len() == 0,
{
    assert((seq![a] + rest).drop_first() =~= rest);
}

/// How far callers are traced: as far as asked, at least one call; where that is left out or is no
/// number that fits, one call.
pub proof fn law_depth_asked(request: JsonV, t: Seq<char>)
    ensures
        at_path(request, seq!["params"@, "arguments"@, "depth"@]) == Some(JsonV::Number(t)) && number_in(
            t,
        ) is Some && number_in(t)->0 >= 1 ==> trace_depth(request) == number_in(t)->0,
        at_path(request, seq!["params"@, "arguments"@, "depth"@]) == Some(JsonV::Number(t)) && (number_in(
            t,
        ) is None || number_in(t)->0 == 0) ==> trace_depth(request) == 1,
        at_path(request, seq!["params"@, "arguments"@, "depth"@]) is None || !(at_path(
            request,
            seq!["params"@, "arguments"@, "depth"@],
        )->0 is Number) ==> trace_depth(request) == 1,
{
}

/// An answer carries the number of its request, or nothing in its place, and the result.
pub proof fn law_reply(id: JsonV, result: JsonV)
    ensures
        member(reply(Some(id), result), "id"@) == Some(id),
        member(reply(None, result), "id"@) == Some(JsonV::Null),
        member(reply(Some(id), result), "result"@) == Some(result),
        member(reply(None, result), "result"@) == Some(result),
        member(reply(None, result), "jsonrpc"@) == Some(JsonV::Text("2.0"@)),
        member(reply(Some(id), result), "jsonrpc"@) == Some(JsonV::Text("2.0"@)),
{
    reveal_strlit("jsonrpc");
    reveal_strlit("id");
    reveal_strlit("result");
    assert("jsonrpc"@.len() == 7 && "id"@.len() == 2 && "result"@.len() == 6);
    let a = reply(Some(id), result)->Object_0;
    let b = reply(None, result)->Object_0;
    law_member_is_first(a, "jsonrpc"@, 0, JsonV::Null);
    law_member_is_first(b, "jsonrpc"@, 0, JsonV::Null);
    law_member_is_first(a, "id"@, 1, JsonV::Null);
    law_member_is_first(b, "id"@, 1, JsonV::Null);
    law_member_is_first(a, "result"@, 2, JsonV::Null);
    law_member_is_first(b, "result"@, 2, JsonV::Null);
}

/// The keys of the answers differ in their length or in their first letter.
proof fn lemma_answer_keys()
    ensures
        "schema_version"@.len() == 14,
        "files"@.len() == 5,
        "edit"@.len() == 4 && "edit"@[0] == 'e',
        "verify"@.len() == 6,
        "risk"@.len() == 4 && "risk"@[0] == 'r',
        "read_order"@.len() == 10,
        "read_first"@.len() == 10,
        "coupled"@.len() == 7,
        "blast_radius"@.len() == 12,
        "who_calls"@.len() == 9,
        "latent_deps"@.len() == 11,
        "verify_candidates"@.len() == 17,
{
    reveal_strlit("schema_version");
    reveal_strlit("files");
    reveal_strlit("edit");
    reveal_strlit("verify");
    reveal_strlit("risk");
    reveal_strlit("read_order");
    reveal_strlit("read_first");
    reveal_strlit("coupled");
    reveal_strlit("blast_radius");
    reveal_strlit("who_calls");
    reveal_strlit("latent_deps");
    reveal_strlit("verify_candidates");
}

/// `j` is the list of the first `n` of the texts.
pub open spec fn lists_first(j: Option<JsonV>, texts: Seq<Seq<char>>, n: int) -> bool {
    &&& j is Some
    &&& j->0 is Array
    &&& j->0->Array_0.len() == if texts.len() < n {
        texts.len() as int
    } else {
        n
    }
    &&& forall|i: int|
        0 <= i < j->0->Array_0.len() ==> #[trigger] j->0->Array_0[i] == JsonV::Text(texts[i])
}

/// What the answer to a task always says: the five best files, the best as the one to edit, the tests
/// of the plan and its risk.
pub proof fn law_task_answer(
    found: Seq<Seq<char>>,
    plan: Plan,
    radius: Option<Seq<Seq<char>>>,
    full: Option<(Seq<Seq<char>>, Option<Seq<Seq<char>>>)>,
)
    ensures
        ({
            let m = JsonV::Object(task_members(found, plan, radius, full));
            &&& member(m, "schema_version"@) == Some(JsonV::Number("1"@))
            &&& lists_first(member(m, "files"@), found, 5)
            &&& found.len() > 0 ==> member(m, "edit"@) == Some(JsonV::Text(found[0]))
            &&& found.len() == 0 ==> member(m, "edit"@) == Some(JsonV::Null)
            &&& member(m, "verify"@) == Some(text_array(views(plan.verify@)))
            &&& member(m, "risk"@) == Some(JsonV::Text(risk_text(plan.risk)))
        }),
{
    lemma_answer_keys();
    let o = task_members(found, plan, radius, full);
    assert(o.len() >= 5);
    assert(o[0].0 == "schema_version"@ && o[1].0 == "files"@ && o[2].0 == "edit"@ && o[3].0 == "verify"@
        && o[4].0 == "risk"@);
    law_member_is_first(o, "schema_version"@, 0, JsonV::Null);
    law_member_is_first(o, "files"@, 1, JsonV::Null);
    law_member_is_first(o, "edit"@, 2, JsonV::Null);
    law_member_is_first(o, "verify"@, 3, JsonV::Null);
    law_member_is_first(o, "risk"@, 4, JsonV::Null);
}

/// What the answer to a task says where the plan is asked for: the files to read, those that may be
/// coupled and those that a change may reach. Otherwise it says none of it.
pub proof fn law_task_answer_plan(
    found: Seq<Seq<char>>,
    plan: Plan,
    radius: Option<Seq<Seq<char>>>,
    full: Option<(Seq<Seq<char>>, Option<Seq<Seq<char>>>)>,
)
    ensures
        ({
            let m = JsonV::Object(task_members(found, plan, radius, full));
            &&& radius is None ==> member(m, "read_order"@) is None && member(m, "coupled"@) is None
                && member(m, "blast_radius"@) is None
            &&& radius is Some ==> member(m, "read_order"@) == Some(
                text_array(views(plan.read_first@)),
            ) && member(m, "coupled"@) == Some(text_array(views(plan.coupled@))) && member(
                m,
                "blast_radius"@,
            ) == Some(text_array(radius->0))
        }),
{
    lemma_answer_keys();
    let o = task_members(found, plan, radius, full);
    assert(o[0].0 == "schema_version"@ && o[1].0 == "files"@ && o[2].0 == "edit"@ && o[3].0 == "verify"@
        && o[4].0 == "risk"@);
    if radius is Some {
        assert(o[5].0 == "read_order"@ && o[6].0 == "coupled"@ && o[7].0 == "blast_radius"@);
        law_member_is_first(o, "read_order"@, 5, JsonV::Null);
        law_member_is_first(o, "coupled"@, 6, JsonV::Null);
        law_member_is_first(o, "blast_radius"@, 7, JsonV::Null);
    } else {
        assert(o.len() <= 7);
        assert(o.len() > 5 ==> o[5].0 == "who_calls"@);
        assert(o.len() > 6 ==> o[6].0 == "latent_deps"@);
        law_member_is_first(o, "read_order"@, 0, JsonV::Null);
        law_member_is_first(o, "coupled"@, 0, JsonV::Null);
        law_member_is_first(o, "blast_radius"@, 0, JsonV::Null);
    }
}

/// What the answer to a task says where all is asked for: the first five callers, and the first five
/// hidden dependencies where there is a file to have them. Otherwise it says none of it.
pub proof fn law_task_answer_full(
    found: Seq<Seq<char>>,
    plan: Plan,
    radius: Option<Seq<Seq<char>>>,
    callers: Seq<Seq<char>>,
    deps: Option<Seq<Seq<char>>>,
)
    ensures
        ({
            let m = JsonV::Object(task_members(found, plan, radius, None));
            member(m, "who_calls"@) is None && member(m, "latent_deps"@) is None
        }),
        ({
            let m = JsonV::Object(task_members(found, plan, radius, Some((callers, deps))));
            &&& lists_first(member(m, "who_calls"@), callers, 5)
            &&& deps is None ==> member(m, "latent_deps"@) is None
            &&& deps is Some ==> lists_first(member(m, "latent_deps"@), deps->0, 5)
        }),
{
    lemma_answer_keys();
    let o = task_members(found, plan, radius, None);
    let q = task_members(found, plan, radius, Some((callers, deps)));
    let n: int = if radius is Some {
        8
    } else {
        5
    };
    assert(o[0].0 == "schema_version"@ && o[1].0 == "files"@ && o[2].0 == "edit"@ && o[3].0 == "verify"@
        && o[4].0 == "risk"@);
    if radius is Some {
        assert(o[5].0 == "read_order"@ && o[6].0 == "coupled"@ && o[7].0 == "blast_radius"@);
    }
    assert(o.len() == n);
    assert forall|i: int| 0 <= i < n implies q[i] == o[i] by {}
    law_member_is_first(o, "who_calls"@, 0, JsonV::Null);
    law_member_is_first(o, "latent_deps"@, 0, JsonV::Null);
    assert(q[n].0 == "who_calls"@);
    law_member_is_first(q, "who_calls"@, n, JsonV::Null);
    if deps is Some {
        assert(q[n + 1].0 == "latent_deps"@);
        law_member_is_first(q, "latent_deps"@, n + 1, JsonV::Null);
    } else {
        assert(q.len() == n + 1);
        law_member_is_first(q, "latent_deps"@, 0, JsonV::Null);
    }
}

/// What a plan says.
pub proof fn law_plan_answer(plan: Plan, radius: Seq<Seq<char>>, candidates: Seq<Seq<char>>)
    ensures
        ({
            let m = JsonV::Object(plan_members(plan, radius, candidates));
            &&& plan.edit is Some ==> member(m, "edit"@) == Some(JsonV::Text(plan.edit->0@))
            &&& plan.edit is None ==> member(m, "edit"@) == Some(JsonV::Null)
            &&& member(m, "verify"@) == Some(text_array(views(plan.verify@)))
            &&& member(m, "read_first"@) == Some(text_array(views(plan.read_first@)))
            &&& member(m, "coupled"@) == Some(text_array(views(plan.coupled@)))
            &&& member(m, "risk"@) == Some(JsonV::Text(risk_text(plan.risk)))
            &&& member(m, "blast_radius"@) == Some(text_array(radius))
            &&& member(m, "verify_candidates"@) == Some(text_array(candidates))
        }),
{
    lemma_answer_keys();
    let o = plan_members(plan, radius, candidates);
    law_member_is_first(o, "edit"@, 0, JsonV::Null);
    law_member_is_first(o, "verify"@, 1, JsonV::Null);
    law_member_is_first(o, "read_first"@, 2, JsonV::Null);
    law_member_is_first(o, "coupled"@, 3, JsonV::Null);
    law_member_is_first(o, "risk"@, 4, JsonV::Null);
    law_member_is_first(o, "blast_radius"@, 5, JsonV::Null);
    law_member_is_first(o, "verify_candidates"@, 6, JsonV::Null);
}

/// A trace lists the files of each number of calls, counted from one.
pub proof fn law_trace_answer(hops: Seq<Vec<String>>, i: int)
    requires
        0 <= i < hops.len(),
    ensures
        member(trace_value(hops), "hops"@) is Some,
        member(trace_value(hops), "hops"@)->0 is Array,
        member(trace_value(hops), "hops"@)->0->Array_0.len() == hops.len(),
        ({
            let hop = member(trace_value(hops), "hops"@)->0->Array_0[i];
            &&& member(hop, "depth"@) == Some(JsonV::Number(decimal((i + 1) as nat)))
            &&& member(hop, "files"@) == Some(text_array(views(hops[i]@)))
        }),
{
    reveal_strlit("depth");
    reveal_strlit("files");
    assert("depth"@[0] == 'd' && "files"@[0] == 'f');
    law_member_is_first(trace_value(hops)->Object_0, "hops"@, 0, JsonV::Null);
    let o = hop_value(i + 1, views(hops[i]@))->Object_0;
    law_member_is_first(o, "depth"@, 0, JsonV::Null);
    law_member_is_first(o, "files"@, 1, JsonV::Null);
}

/// What the health of the index says of its size.
pub proof fn law_health_answer(h: HealthReport)
    ensures
        ({
            let m = JsonV::Object(health_members(h));
            &&& member(m, "ok"@) == Some(JsonV::Bool(true))
            &&& member(m, "phrases"@) == Some(JsonV::Number(decimal(h.phrases as nat)))
            &&& member(m, "files"@) == Some(JsonV::Number(decimal(h.files as nat)))
            &&& member(m, "avgdl"@) == Some(JsonV::Number(h.avgdl@))
            &&& member(m, "build_date"@) == Some(JsonV::Text(h.build_date@))
            &&& member(m, "build_time_readable"@) == Some(JsonV::Text(h.build_time_readable@))
            &&& member(m, "ms"@) == Some(JsonV::Number(h.ms@))
        }),
{
    reveal_strlit("status");
    reveal_strlit("ok");
    reveal_strlit("phrases");
    reveal_strlit("files");
    reveal_strlit("avgdl");
    reveal_strlit("build_date");
    reveal_strlit("build_time_readable");
    reveal_strlit("ms");
    assert("status"@.len() == 6 && "ok"@.len() == 2 && "phrases"@.len() == 7 && "files"@.len() == 5
        && "avgdl"@.len() == 5 && "build_date"@.len() == 10 && "build_time_readable"@.len() == 19
        && "ms"@.len() == 2);
    assert("ok"@[0] == 'o' && "ms"@[0] == 'm' && "files"@[0] == 'f' && "avgdl"@[0] == 'a');
    let o = health_members(h);
    law_member_is_first(o, "ok"@, 1, JsonV::Null);
    law_member_is_first(o, "phrases"@, 2, JsonV::Null);
    law_member_is_first(o, "files"@, 3, JsonV::Null);
    law_member_is_first(o, "avgdl"@, 4, JsonV::Null);
    law_member_is_first(o, "build_date"@, 5, JsonV::Null);
    law_member_is_first(o, "build_time_readable"@, 6, JsonV::Null);
    law_member_is_first(o, "ms"@, 7, JsonV::Null);
}

/// The extension of a path is what stands behind its last dot, and the whole path where it has none.
pub proof fn law_extension(stem: Seq<char>, ext: Seq<char>)
    requires
        !ext.contains('.'),
    ensures
        extension(stem.push('.') + ext) == ext,
        extension(ext) == ext,
{
    law_last_index_parts(stem, '.', ext);
    let p = stem.push('.') + ext;
    assert(p.skip(stem.len() as int + 1) =~= ext);
    assert(ext.skip(0) =~= ext);
}

/// Which extensions are counted: those of six bytes or fewer, one for each path.
pub proof fn law_extensions_counted(paths: Seq<Seq<char>>, p: Seq<char>)
    ensures
        extensions(Seq::empty()).len() == 0,
        encode_utf8(extension(p)).len() <= 6 ==> extensions(paths.push(p)) == extensions(paths).push(
            extension(p),
        ),
        encode_utf8(extension(p)).len() > 6 ==> extensions(paths.push(p)) == extensions(paths),
{
    reveal(Seq::filter);
    let e = |p: Seq<char>| extension(p);
    assert(paths.push(p).map_values(e).drop_last() =~= paths.map_values(e));
    assert(Seq::<Seq<char>>::empty().map_values(e) =~= Seq::<Seq<char>>::empty());
}

/// Which modules are counted: the directory of each path that has one.
pub proof fn law_modules_counted(paths: Seq<Seq<char>>, dir: Seq<char>, name: Seq<char>)
    requires
        !name.contains('/'),
    ensures
        modules_of(Seq::empty()).len() == 0,
        modules_of(paths.push(dir.push('/') + name)) == modules_of(paths).push(dir),
        modules_of(paths.push(name)) == modules_of(paths),
{
    reveal(Seq::filter);
    law_last_index_parts(dir, '/', name);
    let p = dir.push('/') + name;
    assert(p.take(dir.len() as int) =~= dir);
    lemma_filter_push(paths, p, in_module());
    lemma_filter_push(paths, name, in_module());
    assert(modules_of(paths.push(p)) =~= modules_of(paths).push(dir));
    assert(modules_of(paths.push(name)) =~= modules_of(paths));
}

/// A list of counts has an object for each item, with its name and its count.
pub proof fn law_counted_items(
    items: Seq<(String, u64)>,
    name: Seq<char>,
    count: Seq<char>,
    i: int,
)
    requires
        0 <= i < items.len(),
        name != count,
    ensures
        counted_items(items, name, count) is Array,
        counted_items(items, name, count)->Array_0.len() == items.len(),
        member(counted_items(items, name, count)->Array_0[i], name) == Some(
            JsonV::Text(items[i].0@),
        ),
        member(counted_items(items, name, count)->Array_0[i], count) == Some(
            JsonV::Number(decimal(items[i].1 as nat)),
        ),
{
    let o = counted_items(items, name, count)->Array_0[i]->Object_0;
    law_member_is_first(o, name, 0, JsonV::Null);
    law_member_is_first(o, count, 1, JsonV::Null);
}

/// Adding the modules to an answer leaves what it says.
pub proof fn law_modules_added(
    o: Seq<(Seq<char>, JsonV)>,
    modules: Seq<(String, u64)>,
    i: int,
)
    ensures
        mapped(JsonV::Object(o), modules) is Object,
        mapped(JsonV::Object(o), modules)->Object_0.len() == o.len() + 1,
        0 <= i < o.len() ==> mapped(JsonV::Object(o), modules)->Object_0[i] == o[i],
        mapped(JsonV::Object(o), modules)->Object_0.last() == (
            "modules"@,
            counted_items(modules, "module"@, "files"@),
        ),
{
}

/// How a tool is listed: by its name, and with the arguments that it requires.
pub proof fn law_tool_listed(t: Tool)
    ensures
        member(tool_value(t), "name"@) == Some(JsonV::Text(tool_name(t))),
        member(tool_value(t), "description"@) == Some(JsonV::Text(tool_description(t))),
        member(tool_value(t), "inputSchema"@) is Some,
        member(member(tool_value(t), "inputSchema"@)->0, "required"@) == Some(
            text_array(required(tool_arguments(t))),
        ),
        member(member(tool_value(t), "inputSchema"@)->0, "properties"@) == Some(
            JsonV::Object(properties(tool_arguments(t))),
        ),
        member(member(tool_value(t), "inputSchema"@)->0, "type"@) == Some(JsonV::Text("object"@)),
{
    reveal_strlit("name");
    reveal_strlit("description");
    reveal_strlit("inputSchema");
    reveal_strlit("type");
    reveal_strlit("properties");
    reveal_strlit("required");
    assert("name"@.len() == 4 && "description"@.len() == 11 && "inputSchema"@.len() == 11);
    assert("description"@[0] == 'd' && "inputSchema"@[0] == 'i');
    assert("type"@.len() == 4 && "properties"@.len() == 10 && "required"@.len() == 8);
    let o = tool_value(t)->Object_0;
    law_member_is_first(o, "name"@, 0, JsonV::Null);
    law_member_is_first(o, "description"@, 1, JsonV::Null);
    law_member_is_first(o, "inputSchema"@, 2, JsonV::Null);
    let s = o[2].1->Object_0;
    law_member_is_first(s, "type"@, 0, JsonV::Null);
    law_member_is_first(s, "properties"@, 1, JsonV::Null);
    law_member_is_first(s, "required"@, 2, JsonV::Null);
}

/// The list of tools holds every tool once.
pub proof fn law_tools_answer(t: Tool)
    ensures
        member(tools_value(), "tools"@) is Some,
        member(tools_value(), "tools"@)->0 is Array,
        member(tools_value(), "tools"@)->0->Array_0.len() == 11,
        member(tools_value(), "tools"@)->0->Array_0.contains(tool_value(t)),
{
    law_member_is_first(tools_value()->Object_0, "tools"@, 0, JsonV::Null);
    law_tools_listed(t);
    let i = choose|i: int| 0 <= i < listed_tools().len() && listed_tools()[i] == t;
    let a = member(tools_value(), "tools"@)->0->Array_0;
    assert(a[i] == tool_value(t));
}

/// What the orientation says of the repository: how many files it has and of which languages.
pub proof fn law_orientation(n_files: u64, languages: Seq<(String, u64)>)
    ensures
        ({
            let m = JsonV::Object(orient_members(n_files, languages));
            &&& member(m, "schema_version"@) == Some(JsonV::Number("1"@))
            &&& member(m, "n_files"@) == Some(JsonV::Number(decimal(n_files as nat)))
            &&& member(m, "languages"@) == Some(counted_items(languages, "ext"@, "count"@))
            &&& member(m, "workflows"@) is Some
            &&& member(m, "tool_guide"@) is Some
        }),
{
    reveal_strlit("schema_version");
    reveal_strlit("n_files");
    reveal_strlit("languages");
    reveal_strlit("workflows");
    reveal_strlit("tool_guide");
    assert("schema_version"@.len() == 14 && "n_files"@.len() == 7 && "tool_guide"@.len() == 10);
    assert("languages"@[0] == 'l' && "workflows"@[0] == 'w' && "languages"@.len() == 9
        && "workflows"@.len() == 9);
    let o = orient_members(n_files, languages);
    law_member_is_first(o, "schema_version"@, 0, JsonV::Null);
    law_member_is_first(o, "n_files"@, 1, JsonV::Null);
    law_member_is_first(o, "languages"@, 2, JsonV::Null);
    law_member_is_first(o, "workflows"@, 3, JsonV::Null);
    law_member_is_first(o, "tool_guide"@, 4, JsonV::Null);
}

/// A file with a weight is a pair, and a search result an object with the score beside the file.
pub proof fn law_weighed_files(path: Seq<char>, n: nat, score: Seq<char>)
    ensures
        weighed(path, n) is Array,
        weighed(path, n)->Array_0.len() == 2,
        weighed(path, n)->Array_0[0] == JsonV::Text(path),
        weighed(path, n)->Array_0[1] == JsonV::Number(decimal(n).push('.').push('0')),
        member(candidate(path, score), "file"@) == Some(JsonV::Text(path)),
        member(candidate(path, score), "score"@) == Some(JsonV::Number(score)),
{
    reveal_strlit(".0");
    reveal_strlit("file");
    reveal_strlit("score");
    assert(decimal(n) + ".0"@ =~= decimal(n).push('.').push('0'));
    assert("file"@.len() == 4 && "score"@.len() == 5);
    let o = candidate(path, score)->Object_0;
    law_member_is_first(o, "file"@, 0, JsonV::Null);
    law_member_is_first(o, "score"@, 1, JsonV::Null);
}

/// The text of a tool's answer is the one item of its content.
pub proof fn law_content(text: Seq<char>)
    ensures
        member(content(text), "content"@) is Some,
        member(content(text), "content"@)->0 is Array,
        member(content(text), "content"@)->0->Array_0.len() == 1,
        member(member(content(text), "content"@)->0->Array_0[0], "text"@) == Some(JsonV::Text(text)),
        member(member(content(text), "content"@)->0->Array_0[0], "type"@) == Some(
            JsonV::Text("text"@),
        ),
{
    reveal_strlit("type");
    reveal_strlit("text");
    assert("type"@[1] == 'y' && "text"@[1] == 'e');
    law_member_is_first(content(text)->Object_0, "content"@, 0, JsonV::Null);
    let o = member(content(text), "content"@)->0->Array_0[0]->Object_0;
    law_member_is_first(o, "type"@, 0, JsonV::Null);
    law_member_is_first(o, "text"@, 1, JsonV::Null);
}

/// The languages of a repository: at most 8 extensions, each with the number of its files, none before
/// one with more; one is left out only where 8 others have as many.
pub proof fn law_languages(r: Seq<(String, u64)>, paths: Seq<Seq<char>>, e: Seq<char>)
    requires
        are_languages(r, paths),
    ensures
        r.len() <= 8,
        forall|i: int|
            0 <= i < r.len() ==> extensions(paths).contains((#[trigger] r[i]).0@) && r[i].1 == capped(
                extensions(paths).to_multiset().count(r[i].0@),
            ),
        forall|i: int, j: int| 0 <= i < j < r.len() ==> (#[trigger] r[i]).1 >= (#[trigger] r[j]).1,
        extensions(paths).contains(e) && !has_entry(r, e) ==> r.len() == 8 && r[7].1 >= capped(
            extensions(paths).to_multiset().count(e),
        ),
{
    let items = choose|items: Seq<(String, u32)>|
        ones(items, extensions(paths)) && #[trigger] ranks(r, items, 8);
    law_ones_ranked(r, items, extensions(paths), 8, e);
}

/// The modules of a repository: at most 8, each with the number of its files, none before one with
/// more; one is left out only where 8 others have as many.
pub proof fn law_module_map(r: Seq<(String, u64)>, paths: Seq<Seq<char>>, d: Seq<char>)
    requires
        are_modules(r, paths),
    ensures
        r.len() <= 8,
        forall|i: int|
            0 <= i < r.len() ==> modules_of(paths).contains((#[trigger] r[i]).0@) && r[i].1 == capped(
                modules_of(paths).to_multiset().count(r[i].0@),
            ),
        forall|i: int, j: int| 0 <= i < j < r.len() ==> (#[trigger] r[i]).1 >= (#[trigger] r[j]).1,
        modules_of(paths).contains(d) && !has_entry(r, d) ==> r.len() == 8 && r[7].1 >= capped(
            modules_of(paths).to_multiset().count(d),
        ),
{
    let items = choose|items: Seq<(String, u32)>|
        ones(items, modules_of(paths)) && #[trigger] ranks(r, items, 8);
    law_ones_ranked(r, items, modules_of(paths), 8, d);
}

} // verus!
