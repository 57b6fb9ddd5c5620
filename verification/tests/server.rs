use stria::json::Json;
use stria::number::{decimal_text, read_number};
use stria::server::{
    all_tools, body_answer, body_pattern, called_name, callers_answer, depth_argument, deps_answer,
    empty_object, error_answer, flag_argument, hashes_answer, health_answer, language_breakdown,
    make_result, module_map, orient_answer, plan_answer, route, search_answer, session_info,
    switch_answer, task_answer, text_argument, text_content, tool_of, tools_answer, trace_answer,
    unknown_tool, with_modules, ArgumentKind, FullAnswer, HealthReport, Route, Tool,
};
use stria::structural_risk::{hologram_plan, Plan, Trace};

fn text(t: &str) -> Json {
    Json::Text(t.to_string())
}

fn object(members: Vec<(&str, Json)>) -> Json {
    Json::Object(members.into_iter().map(|(k, v)| (k.to_string(), v)).collect())
}

fn strings(v: &[&str]) -> Vec<String> {
    v.iter().map(|s| s.to_string()).collect()
}

fn texts(v: &[&str]) -> Json {
    Json::Array(v.iter().map(|s| text(s)).collect())
}

fn call(name: &str, arguments: Json) -> Json {
    object(vec![
        ("id", Json::Number("1".to_string())),
        ("method", text("tools/call")),
        ("params", object(vec![("name", text(name)), ("arguments", arguments)])),
    ])
}

#[test]
fn requests_are_routed() {
    assert_eq!(route(&object(vec![("method", text("initialize"))])), Route::Initialize);
    assert_eq!(
        route(&object(vec![("method", text("notifications/initialized")), ("id", Json::Null)])),
        Route::Silent
    );
    assert_eq!(route(&object(vec![("method", text("tools/list"))])), Route::ListTools);
    assert_eq!(route(&call("search", Json::Null)), Route::CallTool(Some(Tool::Search)));
    assert_eq!(route(&call("nothing", Json::Null)), Route::CallTool(None));
    assert_eq!(route(&object(vec![("method", text("tools/call"))])), Route::CallTool(None));
    assert_eq!(route(&object(vec![("method", text("ping")), ("id", Json::Null)])), Route::Unknown);
    assert_eq!(route(&object(vec![("id", Json::Null)])), Route::Unknown);
    assert_eq!(route(&object(vec![("method", text("ping"))])), Route::Silent);
    assert_eq!(route(&Json::Null), Route::Silent);
    assert_eq!(route(&object(vec![("method", Json::Bool(true))])), Route::Silent);
}

#[test]
fn tools_go_by_two_names() {
    let all = [
        (Tool::Orient, "orient", "hologram_orient"),
        (Tool::CodeSearch, "code_search", "hologram_task"),
        (Tool::PreEdit, "pre_edit", "hologram_plan"),
        (Tool::Search, "search", "holo_search"),
        (Tool::WhoCalls, "who_calls", "who_calls"),
        (Tool::TraceCallers, "trace_callers", "trace_callers"),
        (Tool::HiddenDeps, "hidden_deps", "latent_deps"),
        (Tool::ExpandBody, "expand_body", "cross_horizon"),
        (Tool::FindHash, "find_hash", "search_horizon"),
        (Tool::Health, "health", "eh_health"),
        (Tool::SwitchRepo, "switch_repo", "switch_repo"),
    ];
    for (tool, name, alias) in all {
        assert_eq!(tool.name(), name);
        assert_eq!(tool_of(name), Some(tool));
        assert_eq!(tool_of(alias), Some(tool));
    }
    assert_eq!(tool_of("Orient"), None);
    assert_eq!(tool_of(""), None);
}

#[test]
fn arguments_are_read() {
    let c = call(
        "code_search",
        object(vec![("task", text("fix it")), ("expand_plan", Json::Bool(true)), ("odd", Json::Null)]),
    );
    assert_eq!(called_name(&c), "code_search");
    assert_eq!(text_argument(&c, "task"), "fix it");
    assert_eq!(text_argument(&c, "odd"), "");
    assert_eq!(text_argument(&c, "missing"), "");
    assert!(flag_argument(&c, "expand_plan"));
    assert!(!flag_argument(&c, "expand_full"));
    assert!(!flag_argument(&c, "task"));
    assert_eq!(text_argument(&Json::Null, "task"), "");
    assert_eq!(called_name(&Json::Null), "");
}

#[test]
fn replies_carry_the_id() {
    assert_eq!(
        make_result(Some(Json::Number("7".to_string())), Json::Bool(true)),
        object(vec![
            ("jsonrpc", text("2.0")),
            ("id", Json::Number("7".to_string())),
            ("result", Json::Bool(true)),
        ])
    );
    assert_eq!(
        make_result(None, Json::Null),
        object(vec![("jsonrpc", text("2.0")), ("id", Json::Null), ("result", Json::Null)])
    );
    assert_eq!(
        text_content("{}"),
        object(vec![(
            "content",
            Json::Array(vec![object(vec![("type", text("text")), ("text", text("{}"))])])
        )])
    );
    assert_eq!(unknown_tool("x"), object(vec![("error", text("Unknown tool: x"))]));
}

fn a_plan() -> Plan {
    hologram_plan(&strings(&["a", "test_b", "c", "d"]), true)
}

fn base_answer() -> Vec<(&'static str, Json)> {
    vec![
        ("schema_version", Json::Number("1".to_string())),
        ("files", texts(&["f1", "f2", "f3", "f4", "f5"])),
        ("edit", text("f1")),
        ("verify", texts(&["test_b"])),
        ("risk", text("low")),
    ]
}

#[test]
fn tasks_are_answered_in_three_tiers() {
    let found = strings(&["f1", "f2", "f3", "f4", "f5", "f6"]);
    assert_eq!(task_answer(&found, &a_plan(), None, None), object(base_answer()));
    let mut planned = base_answer();
    planned.push(("read_order", texts(&["a", "test_b", "c"])));
    planned.push(("coupled", texts(&["test_b", "c", "d"])));
    planned.push(("blast_radius", texts(&["r1", "r2"])));
    let radius = Some(strings(&["r1", "r2"]));
    assert_eq!(task_answer(&found, &a_plan(), radius, None), object(planned));
    let mut full = base_answer();
    full.push(("who_calls", texts(&["c1", "c2", "c3", "c4", "c5"])));
    full.push(("latent_deps", texts(&["d1"])));
    let answer = FullAnswer {
        callers: strings(&["c1", "c2", "c3", "c4", "c5", "c6"]),
        deps: Some(strings(&["d1"])),
    };
    assert_eq!(task_answer(&found, &a_plan(), None, Some(answer)), object(full));
}

#[test]
fn plans_are_answered() {
    assert_eq!(
        plan_answer(&a_plan(), &strings(&["r"]), &strings(&["t1", "t2"])),
        object(vec![
            ("edit", text("a")),
            ("verify", texts(&["test_b"])),
            ("read_first", texts(&["a", "test_b", "c"])),
            ("coupled", texts(&["test_b", "c", "d"])),
            ("risk", text("low")),
            ("blast_radius", texts(&["r"])),
            ("verify_candidates", texts(&["t1", "t2"])),
        ])
    );
    let none = plan_answer(&hologram_plan(&vec![], false), &vec![], &vec![]);
    assert_eq!(none.get("edit"), Some(&Json::Null));
    assert_eq!(none.get("risk"), Some(&text("unknown")));
}

#[test]
fn nothing_found_is_answered_too() {
    let none = FullAnswer { callers: vec![], deps: None };
    assert_eq!(
        task_answer(&vec![], &hologram_plan(&vec![], false), None, Some(none)),
        object(vec![
            ("schema_version", Json::Number("1".to_string())),
            ("files", texts(&[])),
            ("edit", Json::Null),
            ("verify", texts(&[])),
            ("risk", text("unknown")),
            ("who_calls", texts(&[])),
        ])
    );
}

#[test]
fn languages_are_counted() {
    let paths = strings(&["a.rs", "b/c.rs", "d.py", "Makefile", "x.gitignores", "e.", "justs"]);
    assert_eq!(
        language_breakdown(&paths),
        vec![
            ("rs".to_string(), 2),
            ("py".to_string(), 1),
            (String::new(), 1),
            ("justs".to_string(), 1)
        ]
    );
    let many: Vec<String> = (0..12).map(|i| format!("x.e{}", i)).collect();
    assert_eq!(language_breakdown(&many).len(), 8);
}

#[test]
fn tools_are_listed_with_their_arguments() {
    let tools = all_tools();
    assert_eq!(tools.len(), 11);
    for tool in &tools {
        assert_eq!(tool_of(tool.name()), Some(*tool));
        assert_eq!(tools.iter().filter(|t| *t == tool).count(), 1);
    }
    assert_eq!(
        Tool::CodeSearch.arguments(),
        vec![
            ("task", ArgumentKind::Text),
            ("expand_plan", ArgumentKind::Flag),
            ("expand_full", ArgumentKind::Flag)
        ]
    );
    assert_eq!(Tool::HiddenDeps.arguments(), vec![("file", ArgumentKind::Text)]);
    assert_eq!(Tool::Health.arguments(), vec![]);
    assert_eq!(
        Tool::TraceCallers.arguments(),
        vec![("name", ArgumentKind::Text), ("depth", ArgumentKind::Number)]
    );
    assert_eq!(Tool::SwitchRepo.arguments(), vec![("repo", ArgumentKind::Text)]);
}

#[test]
fn sessions_are_started() {
    assert_eq!(
        session_info(),
        object(vec![
            ("protocolVersion", text("2024-11-05")),
            ("capabilities", object(vec![("tools", empty_object())])),
            ("serverInfo", object(vec![("name", text("event-horizon")), ("version", text("0.3.0"))])),
        ])
    );
    assert_eq!(empty_object(), object(vec![]));
    assert_eq!(body_pattern("src/a/b.rs"), "%src_a_b.rs%");
}

fn number(n: &str) -> Json {
    Json::Number(n.to_string())
}

#[test]
fn depths_are_read() {
    let depth = |j: Json| depth_argument(&call("trace_callers", object(vec![("depth", j)])));
    assert_eq!(depth(number("2")), 2);
    assert_eq!(depth(number("0")), 1);
    assert_eq!(depth(number("2.5")), 1);
    assert_eq!(depth(number("-2")), 1);
    assert_eq!(depth(text("2")), 1);
    assert_eq!(depth_argument(&Json::Null), 1);
    assert_eq!(depth_argument(&call("trace_callers", object(vec![]))), 1);
}

#[test]
fn numbers_are_written_and_read() {
    for (n, s) in [(0u64, "0"), (7, "7"), (10, "10"), (907, "907"), (u64::MAX, "18446744073709551615")] {
        assert_eq!(decimal_text(n), s);
    }
    assert_eq!(read_number("4294967295"), Some(u32::MAX));
    assert_eq!(read_number("4294967296"), None);
    assert_eq!(read_number("99999999999999999999"), None);
    assert_eq!(read_number("007"), Some(7));
    assert_eq!(read_number(""), None);
    assert_eq!(read_number("1a"), None);
    for n in [0u32, 9, 10, 4711, u32::MAX] {
        assert_eq!(read_number(&decimal_text(u64::from(n))), Some(n));
    }
}

#[test]
fn traces_are_answered() {
    let mut t = Trace::new(2);
    t.add_step(&strings(&["a", "b"]));
    t.add_step(&strings(&["c"]));
    assert_eq!(
        trace_answer(&t),
        object(vec![(
            "hops",
            Json::Array(vec![
                object(vec![("depth", number("1")), ("files", texts(&["a", "b"]))]),
                object(vec![("depth", number("2")), ("files", texts(&["c"]))]),
            ])
        )])
    );
    assert_eq!(trace_answer(&Trace::new(2)), object(vec![("hops", Json::Array(vec![]))]));
}

#[test]
fn modules_are_mapped() {
    let paths = strings(&["src/a.rs", "src/b.rs", "src/x/c.rs", "main.rs", "tests/d.rs"]);
    assert_eq!(
        module_map(&paths),
        vec![("src".to_string(), 2), ("src/x".to_string(), 1), ("tests".to_string(), 1)]
    );
    let many: Vec<String> = (0..12).map(|i| format!("m{}/x.rs", i)).collect();
    assert_eq!(module_map(&many).len(), 8);
    assert_eq!(
        with_modules(object(vec![("a", Json::Null)]), &vec![("src".to_string(), 2)]),
        object(vec![
            ("a", Json::Null),
            (
                "modules",
                Json::Array(vec![object(vec![("module", text("src")), ("files", number("2"))])])
            ),
        ])
    );
    assert_eq!(with_modules(Json::Bool(true), &vec![]), Json::Bool(true));
}

#[test]
fn orientation_names_languages_tools_and_workflows() {
    let answer = orient_answer(12, &vec![("rs".to_string(), 9), ("md".to_string(), 3)]);
    assert_eq!(answer.get("schema_version"), Some(&number("1")));
    assert_eq!(answer.get("n_files"), Some(&number("12")));
    assert_eq!(
        answer.get("languages"),
        Some(&Json::Array(vec![
            object(vec![("ext", text("rs")), ("count", number("9"))]),
            object(vec![("ext", text("md")), ("count", number("3"))]),
        ]))
    );
    let workflows = answer.get("workflows").unwrap();
    assert_eq!(
        workflows.get("discovery"),
        Some(&object(vec![
            ("tools", texts(&["search(query=...)"])),
            ("description", text("Find files when you know the concept but not the location.")),
        ]))
    );
    assert!(workflows.get("pre_edit").is_some());
    assert!(workflows.get("impact").is_some());
    let guide = answer.get("tool_guide").unwrap();
    for tool in
        ["code_search", "search", "pre_edit", "who_calls", "hidden_deps", "expand_body", "find_hash"]
    {
        assert!(guide.get(tool).unwrap().get("use_when").is_some(), "{}", tool);
    }
    assert_eq!(
        guide.get("hidden_deps"),
        Some(&object(vec![("use_when", text("need hidden cross-module coupling"))]))
    );
}

#[test]
fn the_list_of_tools_tells_their_arguments() {
    let answer = tools_answer();
    let Some(Json::Array(tools)) = answer.get("tools") else { panic!("no tools") };
    assert_eq!(tools.len(), 11);
    for (listed, tool) in tools.iter().zip(all_tools()) {
        assert_eq!(listed.get("name"), Some(&text(tool.name())));
        assert_eq!(listed.get("description"), Some(&text(tool.description())));
        assert!(!tool.description().is_empty());
    }
    assert_eq!(
        tools[1].get("inputSchema"),
        Some(&object(vec![
            ("type", text("object")),
            (
                "properties",
                object(vec![
                    ("task", object(vec![("type", text("string"))])),
                    ("expand_plan", object(vec![("type", text("boolean"))])),
                    ("expand_full", object(vec![("type", text("boolean"))])),
                ])
            ),
            ("required", texts(&["task"])),
        ]))
    );
    let schema = tools[5].get("inputSchema").unwrap();
    assert_eq!(
        schema.get("properties").unwrap().get("depth"),
        Some(&object(vec![("type", text("integer"))]))
    );
    assert_eq!(schema.get("required"), Some(&texts(&["name"])));
    assert_eq!(
        tools[0].get("inputSchema").unwrap().get("properties"),
        Some(&object(vec![]))
    );
}

#[test]
fn files_are_answered_with_their_weights() {
    assert_eq!(
        callers_answer(&vec![("a".to_string(), 3)]),
        object(vec![("callers", Json::Array(vec![Json::Array(vec![text("a"), number("3.0")])]))])
    );
    assert_eq!(
        deps_answer(&vec![("b".to_string(), 10)]),
        object(vec![("deps", Json::Array(vec![Json::Array(vec![text("b"), number("10.0")])]))])
    );
    assert_eq!(deps_answer(&vec![]), object(vec![("deps", Json::Array(vec![]))]));
    assert_eq!(
        search_answer(&vec![("c".to_string(), "1.25".to_string())]),
        object(vec![(
            "candidates",
            Json::Array(vec![object(vec![("file", text("c")), ("score", number("1.25"))])])
        )])
    );
}

#[test]
fn functions_health_and_repositories_are_answered() {
    assert_eq!(body_answer("fn x"), object(vec![("body", text("fn x"))]));
    assert_eq!(
        hashes_answer(&vec![("ab".to_string(), "f".to_string())]),
        object(vec![("results", Json::Array(vec![texts(&["ab", "f"])]))])
    );
    assert_eq!(error_answer("no"), object(vec![("error", text("no"))]));
    assert_eq!(
        switch_answer("/r", 12),
        object(vec![("repo", text("/r")), ("phrases", number("12"))])
    );
    let report = HealthReport {
        phrases: 5,
        files: 2,
        avgdl: "2.5".to_string(),
        build_date: "17".to_string(),
        build_time_readable: "then".to_string(),
        ms: "0.1".to_string(),
    };
    assert_eq!(
        health_answer(&report),
        object(vec![
            ("status", text("ok")),
            ("ok", Json::Bool(true)),
            ("phrases", number("5")),
            ("files", number("2")),
            ("avgdl", number("2.5")),
            ("build_date", text("17")),
            ("build_time_readable", text("then")),
            ("ms", number("0.1")),
        ])
    );
}
