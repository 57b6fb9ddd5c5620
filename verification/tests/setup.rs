use stria::json::Json;
use stria::setup::{
    add_stria, add_to_gitignore, agents, can_take_stria, confirms_adding, confirms_removing, detect_agents_without_stria,
    expand_path, find_configured_agents, has_stria, remove_stria, setup_outcome, AgentState,
    SetupOutcome,
};

fn text(t: &str) -> Json {
    Json::Text(t.to_string())
}

fn copy(j: &Json) -> Json {
    match j {
        Json::Null => Json::Null,
        Json::Bool(b) => Json::Bool(*b),
        Json::Number(n) => Json::Number(n.clone()),
        Json::Text(t) => Json::Text(t.clone()),
        Json::Array(v) => Json::Array(v.iter().map(copy).collect()),
        Json::Object(m) => Json::Object(m.iter().map(|(k, v)| (k.clone(), copy(v))).collect()),
    }
}

fn object(members: Vec<(&str, Json)>) -> Json {
    Json::Object(members.into_iter().map(|(k, v)| (k.to_string(), v)).collect())
}

#[test]
fn stria_is_added_at_the_top_for_opencode() {
    let cfg = object(vec![("theme", text("dark"))]);
    assert!(!has_stria(&cfg, "OpenCode"));
    let added = add_stria(copy(&cfg), "OpenCode", "/bin/stria");
    assert_eq!(
        added,
        object(vec![
            ("theme", text("dark")),
            (
                "stria",
                object(vec![
                    ("type", text("local")),
                    ("command", Json::Array(vec![text("/bin/stria"), text("serve")])),
                ])
            ),
        ])
    );
    assert!(has_stria(&added, "OpenCode"));
    assert!(!has_stria(&added, "Cursor"));
    assert_eq!(remove_stria(added, "OpenCode"), cfg);
}

#[test]
fn stria_is_added_among_the_servers_for_others() {
    let cfg = object(vec![("mcpServers", object(vec![("other", Json::Bool(true))])), ("x", Json::Null)]);
    let added = add_stria(copy(&cfg), "Cursor", "stria");
    assert_eq!(
        added,
        object(vec![
            (
                "mcpServers",
                object(vec![
                    ("other", Json::Bool(true)),
                    (
                        "stria",
                        object(vec![("command", text("stria")), ("args", Json::Array(vec![text("serve")]))])
                    ),
                ])
            ),
            ("x", Json::Null),
        ])
    );
    assert!(has_stria(&added, "Cursor"));
    assert_eq!(remove_stria(added, "Cursor"), cfg);
}

#[test]
fn servers_are_made_where_there_are_none() {
    let added = add_stria(object(vec![]), "Windsurf", "stria");
    assert!(has_stria(&added, "Windsurf"));
    assert_eq!(remove_stria(added, "Windsurf"), object(vec![("mcpServers", object(vec![]))]));
}

#[test]
fn adding_twice_changes_nothing() {
    for agent in ["OpenCode", "Cursor"] {
        let once = add_stria(object(vec![("a", Json::Null)]), agent, "one");
        assert_eq!(add_stria(copy(&once), agent, "two"), once);
    }
}

#[test]
fn what_is_no_object_stays() {
    assert_eq!(add_stria(Json::Null, "Cursor", "x"), Json::Null);
    assert_eq!(remove_stria(Json::Array(vec![]), "OpenCode"), Json::Array(vec![]));
    let odd = object(vec![("mcpServers", text("none"))]);
    assert!(!has_stria(&odd, "Cursor"));
    assert_eq!(remove_stria(copy(&odd), "Cursor"), odd);
    assert!(!has_stria(&text("stria"), "OpenCode"));
    assert!(!can_take_stria(&odd, "Cursor"));
    assert!(can_take_stria(&odd, "OpenCode"));
    assert!(!can_take_stria(&Json::Null, "OpenCode"));
    assert!(can_take_stria(&Json::Null, "Cursor"));
    assert!(can_take_stria(&object(vec![("mcpServers", object(vec![]))]), "Cursor"));
}

#[test]
fn agents_are_found_by_their_configuration() {
    let with = object(vec![("mcpServers", object(vec![("stria", Json::Null)]))]);
    let states = vec![
        AgentState { name: "OpenCode".to_string(), config: Some(copy(&with)) },
        AgentState { name: "Cursor".to_string(), config: Some(with) },
        AgentState { name: "Windsurf".to_string(), config: None },
    ];
    assert_eq!(detect_agents_without_stria(&states), vec![0]);
    assert_eq!(find_configured_agents(&states), vec![1]);
    let names: Vec<&str> = agents().iter().map(|a| a.name).collect();
    assert_eq!(names, vec!["OpenCode", "Cursor", "Windsurf"]);
}

#[test]
fn setting_up_comes_to_one_of_three() {
    assert_eq!(setup_outcome(1, 0), SetupOutcome::Offer);
    assert_eq!(setup_outcome(1, 2), SetupOutcome::Offer);
    assert_eq!(setup_outcome(0, 2), SetupOutcome::AlreadyConfigured);
    assert_eq!(setup_outcome(0, 0), SetupOutcome::NoAgents);
}

#[test]
fn homes_are_expanded() {
    assert_eq!(expand_path("~/.cursor/mcp.json", Some("/home/u")), "/home/u/.cursor/mcp.json");
    assert_eq!(expand_path("~/x", None), "~/x");
    assert_eq!(expand_path("/etc/x", Some("/home/u")), "/etc/x");
    assert_eq!(expand_path("~x", Some("/home/u")), "~x");
}

#[test]
fn answers_are_taken() {
    assert!(confirms_adding(false, ""));
    assert!(confirms_adding(false, "yes\n"));
    assert!(!confirms_adding(false, " N \n"));
    assert!(!confirms_adding(false, "n"));
    assert!(confirms_adding(true, "n"));
    assert!(!confirms_removing(false, ""));
    assert!(confirms_removing(false, "Y\n"));
    assert!(!confirms_removing(false, "yes"));
    assert!(confirms_removing(true, ""));
}

#[test]
fn the_index_is_ignored_once() {
    assert_eq!(add_to_gitignore(""), Some(".stria\n".to_string()));
    assert_eq!(add_to_gitignore("target"), Some("target\n.stria\n".to_string()));
    assert_eq!(add_to_gitignore("target\n"), Some("target\n.stria\n".to_string()));
    assert_eq!(add_to_gitignore("a\r\n  .stria  \nb"), None);
    assert_eq!(add_to_gitignore(".stria/\n"), None);
    assert_eq!(add_to_gitignore("a\n .stria/\r\n"), None);
    assert_eq!(add_to_gitignore("/.stria\n"), Some("/.stria\n.stria\n".to_string()));
    for content in ["", "x", "x\n", "x\r\n\r\n"] {
        let added = add_to_gitignore(content).unwrap();
        assert_eq!(add_to_gitignore(&added), None);
        assert!(added.starts_with(content));
    }
}
