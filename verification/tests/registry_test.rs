use aion_tools::registry::{Tool, ToolDef, ToolRegistry};
use serde_json::Value;

struct FakeTool {
    name: &'static str,
    description: &'static str,
    deferred: bool,
}

impl Tool for FakeTool {
    fn name(&self) -> &str {
        self.name
    }

    fn description(&self) -> &str {
        self.description
    }

    fn input_schema(&self) -> Value {
        Value::String(format!("schema of {}", self.name))
    }

    fn is_deferred(&self) -> bool {
        self.deferred
    }
}

fn tool(name: &'static str, deferred: bool) -> Box<dyn Tool> {
    Box::new(FakeTool { name, description: "a tool", deferred })
}

fn registry() -> ToolRegistry {
    let mut r: ToolRegistry = ToolRegistry::new();
    r.register(tool("Read", false));
    r.register(tool("query_business_data", true));
    r.register(tool("lookup_orders", true));
    r.register(tool("Write", false));
    r
}

fn exact_name<'a>(defs: &'a [ToolDef], query: &str) -> Vec<&'a ToolDef> {
    defs.iter().filter(|d| d.name == query).collect()
}

fn containing<'a>(defs: &'a [ToolDef], query: &str) -> Vec<&'a ToolDef> {
    defs.iter().filter(|d| d.name.contains(query)).collect()
}

#[test]
fn new_registry_is_empty() {
    let r: ToolRegistry = ToolRegistry::new();
    assert!(r.tool_names().is_empty());
    assert!(r.activated_tool_names().is_empty());
    assert!(r.to_tool_defs().is_empty());
    let d: ToolRegistry = ToolRegistry::default();
    assert!(d.tool_names().is_empty());
}

#[test]
fn tool_names_keep_registration_order() {
    assert_eq!(registry().tool_names(), vec!["Read", "query_business_data", "lookup_orders", "Write"]);
}

#[test]
fn get_finds_the_first_tool_with_the_name() {
    let mut r = registry();
    r.register(Box::new(FakeTool { name: "Read", description: "second", deferred: true }));
    let found = r.get("Read").unwrap();
    assert_eq!(found.description(), "a tool");
    assert!(!found.is_deferred());
    assert!(r.get("Missing").is_none());
}

#[test]
fn deferred_definitions_until_activated() {
    let mut r = registry();
    let defs = r.to_tool_defs();
    assert_eq!(defs.len(), 4);
    assert_eq!(defs[1].name, "query_business_data");
    assert_eq!(defs[1].input_schema, Value::String("schema of query_business_data".to_string()));
    assert_eq!(defs[1].description, "a tool");
    assert!(!defs[0].deferred);
    assert!(defs[1].deferred);
    assert!(defs[2].deferred);
    r.activate_deferred_tools("query_business_data", exact_name);
    let defs = r.to_tool_defs();
    assert!(!defs[1].deferred);
    assert!(defs[2].deferred);
    assert_eq!(r.activated_tool_names(), vec!["query_business_data"]);
}

#[test]
fn activated_names_are_sorted_and_unique() {
    let mut r = registry();
    r.activate_deferred_tools("u", containing);
    r.activate_deferred_tools("lookup_orders", exact_name);
    assert_eq!(r.activated_tool_names(), vec!["lookup_orders", "query_business_data"]);
    r.activate_deferred_tools("nothing matches", exact_name);
    assert_eq!(r.activated_tool_names(), vec!["lookup_orders", "query_business_data"]);
}

#[test]
fn restore_accepts_only_registered_deferred_tools() {
    let mut r = registry();
    let names = vec![
        "Write".to_string(),
        "lookup_orders".to_string(),
        "stale_tool".to_string(),
        "lookup_orders".to_string(),
    ];
    r.restore_activated_tools(&names);
    assert_eq!(r.activated_tool_names(), vec!["lookup_orders"]);
}

#[test]
fn activation_survives_a_restore_into_a_fresh_registry() {
    let mut first = registry();
    first.activate_deferred_tools("query_business_data", exact_name);
    first.activate_deferred_tools("lookup_orders", exact_name);
    let stored = first.activated_tool_names();
    let mut resumed = registry();
    resumed.restore_activated_tools(&stored);
    assert_eq!(resumed.activated_tool_names(), stored);
    resumed.restore_activated_tools(&stored);
    assert_eq!(resumed.activated_tool_names(), stored);
}

#[test]
fn filtered_definitions_keep_order() {
    let mut r = registry();
    r.activate_deferred_tools("lookup_orders", exact_name);
    let defs = r.to_tool_defs_filtered(|t: &Box<dyn Tool>| t.name() != "Write" && t.name() != "Read");
    let names: Vec<&str> = defs.iter().map(|d| d.name.as_str()).collect();
    assert_eq!(names, vec!["query_business_data", "lookup_orders"]);
    assert!(defs[0].deferred);
    assert!(!defs[1].deferred);
}

struct SwitchingTool {
    renamed: std::rc::Rc<std::cell::Cell<bool>>,
}

impl Tool for SwitchingTool {
    fn name(&self) -> &str {
        if self.renamed.get() { "after" } else { "before" }
    }

    fn description(&self) -> &str {
        "switches"
    }

    fn input_schema(&self) -> Value {
        Value::Null
    }

    fn is_deferred(&self) -> bool {
        !self.renamed.get()
    }
}

#[test]
fn lookups_ask_tools_their_current_answers() {
    let renamed = std::rc::Rc::new(std::cell::Cell::new(false));
    let mut r: ToolRegistry = ToolRegistry::new();
    r.register(Box::new(SwitchingTool { renamed: renamed.clone() }));
    assert_eq!(r.tool_names(), vec!["before"]);
    assert!(r.to_tool_defs()[0].deferred);
    renamed.set(true);
    assert_eq!(r.tool_names(), vec!["after"]);
    assert!(r.get("before").is_none());
    assert!(r.get("after").is_some());
    let defs = r.to_tool_defs();
    assert_eq!(defs[0].name, "after");
    assert!(!defs[0].deferred);
    r.restore_activated_tools(&["after".to_string()]);
    assert!(r.activated_tool_names().is_empty());
}
