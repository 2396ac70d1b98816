use fleur_lib::app::{self, AppContext};
use fleur_lib::clients::ClientType;
use fleur_lib::environment;
use fleur_lib::json::JsonValue;

fn json(text: &str) -> JsonValue {
    fleur_lib::json::parse_json(text).expect("test document parses")
}

fn clone_args(items: &Vec<JsonValue>) -> Vec<String> {
    let mut out: Vec<String> = Vec::new();
    for v in items {
        match v {
            JsonValue::Str(s) => out.push(s.clone()),
            other => panic!("argument should be a string: {:?}", other),
        }
    }
    out
}

fn test_registry() -> JsonValue {
    json(
        "[{\"name\": \"Browser\", \"description\": \"Web browser\", \"config\": {\"mcpKey\": \"puppeteer\", \"runtime\": \"npx\", \"args\": [\"-y\", \"@modelcontextprotocol/server-puppeteer\", \"--debug\"]}}, {\"name\": \"Time\", \"description\": \"Time server\", \"config\": {\"mcpKey\": \"time\", \"runtime\": \"npx\", \"args\": [\"-y\", \"mcp-server-time\"]}}]",
    )
}

fn test_context() -> AppContext {
    let mut ctx = AppContext::new();
    environment::set_test_mode(&mut ctx.env, true);
    app::store_registry(&mut ctx, test_registry());
    app::set_test_config_path(&mut ctx, Some("/tmp/orchestrator-test.json".to_string()));
    app::get_config(&mut ctx, &ClientType::Anchor, Some("{\n  \"mcpServers\": {}\n}")).unwrap();
    ctx
}

#[test]
fn test_install_and_uninstall() {
    let mut ctx = test_context();

    let install_result = app::install(&mut ctx, "Browser", None, "Anchor");
    assert!(install_result.is_ok(), "Install failed: {:?}", install_result);

    let is_installed = app::is_installed(&mut ctx, "Browser", "Anchor").unwrap();
    assert!(is_installed, "Browser should be installed");

    let uninstall_result = app::uninstall(&mut ctx, "Browser", "Anchor");
    assert!(uninstall_result.is_ok(), "Uninstall failed: {:?}", uninstall_result);

    let is_installed = app::is_installed(&mut ctx, "Browser", "Anchor").unwrap();
    assert!(!is_installed, "Browser should not be installed");
}

#[test]
fn test_install_writes_entry_and_uninstall_removes_key() {
    let mut ctx = test_context();
    let (msg, write) = app::install(&mut ctx, "Browser", None, "Anchor").unwrap();
    assert_eq!(msg, "Added puppeteer configuration for Browser");
    assert!(write.is_some());

    let doc = app::get_config(&mut ctx, &ClientType::Anchor, None).unwrap();
    let servers = doc.obj_get("mcpServers").unwrap();
    let entry = servers.obj_get("puppeteer").expect("entry exists");
    assert_eq!(
        entry.obj_get("args"),
        Some(&JsonValue::Arr(vec![
            JsonValue::Str("-y".to_string()),
            JsonValue::Str("@modelcontextprotocol/server-puppeteer".to_string()),
            JsonValue::Str("--debug".to_string()),
        ]))
    );
    assert!(app::is_installed(&mut ctx, "Browser", "Anchor").unwrap());

    app::uninstall(&mut ctx, "Browser", "Anchor").unwrap();
    let doc = app::get_config(&mut ctx, &ClientType::Anchor, None).unwrap();
    assert!(!doc.obj_get("mcpServers").unwrap().obj_has("puppeteer"));
}

#[test]
fn test_install_twice_yields_same_document() {
    let mut ctx = test_context();
    let env_vars = json("{\"HOST\": \"x\"}");
    app::install(&mut ctx, "Browser", Some(&env_vars), "Anchor").unwrap();
    let once = app::get_config(&mut ctx, &ClientType::Anchor, None).unwrap();
    app::install(&mut ctx, "Browser", Some(&env_vars), "Anchor").unwrap();
    let twice = app::get_config(&mut ctx, &ClientType::Anchor, None).unwrap();
    assert!(once.deep_eq(&twice), "second install must overwrite, not duplicate");
}

#[test]
fn test_uninstall_never_installed() {
    let mut ctx = test_context();
    let before = app::get_config(&mut ctx, &ClientType::Anchor, None).unwrap();
    let (msg, write) = app::uninstall(&mut ctx, "Time", "Anchor").unwrap();
    assert_eq!(msg, "Configuration for Time was not found");
    assert!(write.is_none());
    let after = app::get_config(&mut ctx, &ClientType::Anchor, None).unwrap();
    assert!(before.deep_eq(&after), "document must be unchanged");
}

#[test]
fn test_uninstall_unknown_integration() {
    let mut ctx = test_context();
    let (msg, write) = app::uninstall(&mut ctx, "Nonexistent", "Anchor").unwrap();
    assert_eq!(msg, "No configuration available for Nonexistent");
    assert!(write.is_none());
}

#[test]
fn test_unknown_client_rejected_without_store_access() {
    let mut ctx = test_context();
    let r = app::install(&mut ctx, "Browser", None, "Netscape");
    assert_eq!(r.unwrap_err(), "Invalid client: Netscape");
    let r = app::uninstall(&mut ctx, "Browser", "Netscape");
    assert_eq!(r.unwrap_err(), "Invalid client: Netscape");
    let r = app::is_installed(&mut ctx, "Browser", "Netscape");
    assert_eq!(r.unwrap_err(), "Invalid client: Netscape");
    let r = app::get_app_statuses(&mut ctx, "Netscape");
    assert_eq!(r.unwrap_err(), "Invalid client: Netscape");
    // The document is untouched.
    let doc = app::get_config(&mut ctx, &ClientType::Anchor, None).unwrap();
    assert!(!doc.obj_get("mcpServers").unwrap().obj_has("puppeteer"));
}

#[test]
fn test_install_unknown_integration_is_soft() {
    let mut ctx = test_context();
    let (msg, write) = app::install(&mut ctx, "NotInCatalog", None, "Anchor").unwrap();
    assert_eq!(msg, "No configuration available for: NotInCatalog");
    assert!(write.is_none());
}

#[test]
fn test_app_env_operations() {
    let mut ctx = test_context();
    app::install(&mut ctx, "Browser", None, "Anchor").unwrap();

    let env_values = json("{\"TEST_KEY\": \"test_value\", \"ANOTHER_KEY\": \"another_value\"}");
    let save_result = app::save_app_env(&mut ctx, "Browser", &env_values, "Anchor");
    assert!(save_result.is_ok(), "Failed to save env values: {:?}", save_result);

    let get_result = app::get_app_env(&mut ctx, "Browser", "Anchor").unwrap();
    assert_eq!(get_result, env_values, "Retrieved env values don't match saved values");
}

#[test]
fn test_install_with_env_vars() {
    let mut ctx = test_context();
    let env_vars = json("{\"TEST_ENV\": \"test_value\", \"DEBUG\": \"true\"}");
    let install_result = app::install(&mut ctx, "Browser", Some(&env_vars), "Anchor");
    assert!(install_result.is_ok(), "Install with env vars failed: {:?}", install_result);

    let saved_env = app::get_app_env(&mut ctx, "Browser", "Anchor").unwrap();
    assert_eq!(saved_env, env_vars, "Saved env vars don't match provided values");
}

#[test]
fn test_app_statuses() {
    let mut ctx = test_context();

    let initial = app::get_app_statuses(&mut ctx, "Anchor").unwrap();
    assert!(matches!(initial.obj_get("installed"), Some(JsonValue::Obj(_))));
    assert!(matches!(initial.obj_get("configured"), Some(JsonValue::Obj(_))));

    app::install(&mut ctx, "Browser", None, "Anchor").unwrap();

    let updated = app::get_app_statuses(&mut ctx, "Anchor").unwrap();
    assert_eq!(
        updated.obj_get("installed").unwrap().obj_get("Browser"),
        Some(&JsonValue::Bool(true)),
        "Browser should be marked as installed"
    );
    assert_eq!(
        updated.obj_get("configured").unwrap().obj_get("Browser"),
        Some(&JsonValue::Bool(true))
    );
}

#[test]
fn test_app_statuses_degrade_without_catalog() {
    let mut ctx = test_context();
    app::clear_registry(&mut ctx);
    let statuses = app::get_app_statuses(&mut ctx, "Anchor").unwrap();
    assert_eq!(statuses.obj_get("installed"), Some(&JsonValue::Obj(vec![])));
    assert_eq!(statuses.obj_get("configured"), Some(&JsonValue::Obj(vec![])));
}

#[test]
fn test_multiple_apps() {
    let mut ctx = test_context();

    app::install(&mut ctx, "Browser", None, "Anchor").unwrap();
    app::install(&mut ctx, "Time", None, "Anchor").unwrap();

    assert!(
        app::is_installed(&mut ctx, "Browser", "Anchor").unwrap(),
        "Browser should be installed"
    );
    assert!(app::is_installed(&mut ctx, "Time", "Anchor").unwrap(), "Time should be installed");

    let statuses = app::get_app_statuses(&mut ctx, "Anchor").unwrap();
    assert_eq!(
        statuses.obj_get("installed").unwrap().obj_get("Browser"),
        Some(&JsonValue::Bool(true))
    );
    assert_eq!(
        statuses.obj_get("installed").unwrap().obj_get("Time"),
        Some(&JsonValue::Bool(true))
    );

    app::uninstall(&mut ctx, "Browser", "Anchor").unwrap();
    assert!(
        !app::is_installed(&mut ctx, "Browser", "Anchor").unwrap(),
        "Browser should be uninstalled"
    );
    assert!(
        app::is_installed(&mut ctx, "Time", "Anchor").unwrap(),
        "Time should still be installed"
    );
}

#[test]
fn test_env_var_replacement_during_install() {
    let mut ctx = AppContext::new();
    environment::set_test_mode(&mut ctx.env, true);
    let registry = json(
        "[{\"name\": \"EnvTest\", \"description\": \"Environment Variable Test\", \"config\": {\"mcpKey\": \"envtest\", \"runtime\": \"npx\", \"args\": [\"-y\", \"mcp-server-test\", \"--prefix\", \"${PREFIX}\", \"--value\", \"${ENV_VAR}\", \"--suffix\", \"${SUFFIX}\"]}}]",
    );
    app::store_registry(&mut ctx, registry);
    app::set_test_config_path(&mut ctx, Some("/tmp/envtest.json".to_string()));
    let initial = "{\"mcpServers\": {\"envtest\": {\"env\": {\"PREFIX\": \"prefix_value\", \"ENV_VAR\": \"test_value\", \"SUFFIX\": \"suffix_value\"}}}}";
    app::get_config(&mut ctx, &ClientType::Anchor, Some(initial)).unwrap();

    app::install(&mut ctx, "EnvTest", None, "Anchor").unwrap();

    let config = app::get_config(&mut ctx, &ClientType::Anchor, None).unwrap();
    let args = match config
        .obj_get("mcpServers")
        .and_then(|s| s.obj_get("envtest"))
        .and_then(|e| e.obj_get("args"))
    {
        Some(JsonValue::Arr(items)) => clone_args(items),
        _ => panic!("args should be an array"),
    };
    assert_eq!(args[0], "-y", "First arg should be -y");
    assert_eq!(args[1], "mcp-server-test", "Second arg should be mcp-server-test");
    assert_eq!(args[2], "--prefix", "Third arg should be --prefix");
    assert_eq!(args[3], "prefix_value", "PREFIX should be replaced with prefix_value");
    assert_eq!(args[4], "--value", "Fifth arg should be --value");
    assert_eq!(args[5], "test_value", "ENV_VAR should be replaced with test_value");
    assert_eq!(args[6], "--suffix", "Seventh arg should be --suffix");
    assert_eq!(args[7], "suffix_value", "SUFFIX should be replaced with suffix_value");
}

#[test]
fn test_complex_env_var_replacements() {
    let mut ctx = AppContext::new();
    environment::set_test_mode(&mut ctx.env, true);
    let registry = json(
        "[{\"name\": \"ComplexEnvTest\", \"description\": \"Complex Environment Variable Test\", \"config\": {\"mcpKey\": \"complextest\", \"runtime\": \"npx\", \"args\": [\"-y\", \"complex-test\", \"--simple=${SIMPLE}\", \"--combined=${PREFIX}${MIDDLE}${SUFFIX}\", \"--embedded=prefix_${EMBEDDED}_suffix\", \"--numeric=${NUMBER}\", \"--flag=${FLAG}\", \"--path=${PATH_VAR}/subdir\", \"--missing=${DOES_NOT_EXIST}\"]}}]",
    );
    app::store_registry(&mut ctx, registry);
    app::set_test_config_path(&mut ctx, Some("/tmp/complextest.json".to_string()));
    let initial = "{\"mcpServers\": {\"complextest\": {\"env\": {\"SIMPLE\": \"simple_value\", \"PREFIX\": \"prefix_\", \"MIDDLE\": \"middle\", \"SUFFIX\": \"_suffix\", \"EMBEDDED\": \"embedded_value\", \"NUMBER\": 42, \"FLAG\": true, \"PATH_VAR\": \"/tmp/test\"}}}}";
    app::get_config(&mut ctx, &ClientType::Anchor, Some(initial)).unwrap();

    app::install(&mut ctx, "ComplexEnvTest", None, "Anchor").unwrap();

    let config = app::get_config(&mut ctx, &ClientType::Anchor, None).unwrap();
    let args = match config
        .obj_get("mcpServers")
        .and_then(|s| s.obj_get("complextest"))
        .and_then(|e| e.obj_get("args"))
    {
        Some(JsonValue::Arr(items)) => clone_args(items),
        _ => panic!("args should be an array"),
    };
    assert_eq!(args[0], "-y", "First arg should be -y");
    assert_eq!(args[1], "complex-test", "Second arg should be complex-test");
    assert_eq!(args[2], "--simple=simple_value", "Simple variable should be replaced");
    assert_eq!(args[3], "--combined=prefix_middle_suffix", "Multiple variables should be replaced");
    assert_eq!(
        args[4],
        "--embedded=prefix_embedded_value_suffix",
        "Embedded variable should be replaced"
    );
    assert_eq!(args[5], "--numeric=42", "Numeric variable should be replaced");
    assert_eq!(args[6], "--flag=true", "Boolean variable should be replaced");
    assert_eq!(args[7], "--path=/tmp/test/subdir", "Path variable should be replaced");
    assert_eq!(
        args[8],
        "--missing=${DOES_NOT_EXIST}",
        "Missing variable should remain unchanged"
    );
}

#[test]
fn test_full_app_lifecycle() {
    let mut ctx = AppContext::new();
    environment::set_test_mode(&mut ctx.env, true);
    app::store_registry(
        &mut ctx,
        json(
            "[{\"name\": \"Browser\", \"description\": \"Web browser\", \"icon\": {\"type\": \"url\", \"url\": {\"light\": \"browser.svg\", \"dark\": \"browser.svg\"}}, \"category\": \"Utilities\", \"price\": \"Free\", \"developer\": \"Test Developer\", \"config\": {\"mcpKey\": \"puppeteer\", \"runtime\": \"npx\", \"args\": [\"-y\", \"@modelcontextprotocol/server-puppeteer\", \"--debug\"]}}]",
        ),
    );
    app::set_test_config_path(&mut ctx, Some("/tmp/lifecycle.json".to_string()));
    app::get_config(&mut ctx, &ClientType::Cursor, Some("{\n  \"mcpServers\": {}\n}")).unwrap();

    let install_result = app::install(&mut ctx, "Browser", None, "Cursor");
    assert!(install_result.is_ok(), "Install failed: {:?}", install_result);
    assert!(app::is_installed(&mut ctx, "Browser", "Cursor").unwrap());

    let uninstall_result = app::uninstall(&mut ctx, "Browser", "Cursor");
    assert!(uninstall_result.is_ok());
    assert!(!app::is_installed(&mut ctx, "Browser", "Cursor").unwrap());
}

#[test]
fn test_get_app_configs_resolves_runtimes() {
    let mut ctx = AppContext::new();
    environment::set_test_mode(&mut ctx.env, true);
    app::store_registry(
        &mut ctx,
        json(
            "[{\"name\": \"A\", \"config\": {\"mcpKey\": \"a\", \"runtime\": \"npx\", \"args\": []}}, {\"name\": \"B\", \"config\": {\"mcpKey\": \"b\", \"runtime\": \"uvx\", \"args\": []}}, {\"name\": \"C\", \"config\": {\"mcpKey\": \"c\", \"runtime\": \"/usr/bin/custom\", \"args\": []}}]",
        ),
    );
    let cfgs = app::get_app_configs(&ctx).unwrap();
    assert_eq!(cfgs.len(), 3);
    assert_eq!(cfgs[0].1.command, "/test/.local/share/fleur/bin/npx-fleur");
    assert_eq!(cfgs[1].1.command, "/test/.local/bin/uvx");
    assert_eq!(cfgs[2].1.command, "/usr/bin/custom");
}

#[test]
fn test_get_app_configs_reports_missing_fields() {
    let mut ctx = AppContext::new();
    environment::set_test_mode(&mut ctx.env, true);
    app::store_registry(&mut ctx, json("[{\"name\": \"A\", \"config\": {}}]"));
    assert_eq!(app::get_app_configs(&ctx).unwrap_err(), "mcpKey is missing");
    app::store_registry(&mut ctx, json("{}"));
    assert_eq!(app::get_app_configs(&ctx).unwrap_err(), "App registry is not an array");
    app::store_registry(&mut ctx, json("[{}]"));
    assert_eq!(app::get_app_configs(&ctx).unwrap_err(), "App name is missing");
}

#[test]
fn test_install_requires_loaded_document() {
    let mut ctx = AppContext::new();
    environment::set_test_mode(&mut ctx.env, true);
    app::store_registry(&mut ctx, test_registry());
    // No document was loaded for this client, and no content is supplied.
    let r = app::install(&mut ctx, "Browser", None, "Anchor");
    assert!(r.is_err());
}

#[test]
fn test_save_env_for_unknown_app() {
    let mut ctx = test_context();
    let values = json("{\"K\": \"v\"}");
    let r = app::save_app_env(&mut ctx, "Ghost", &values, "Anchor");
    assert_eq!(r.unwrap_err(), "No configuration available for 'Ghost'");
}

#[test]
fn test_save_env_for_uninstalled_app() {
    let mut ctx = test_context();
    let values = json("{\"K\": \"v\"}");
    let r = app::save_app_env(&mut ctx, "Browser", &values, "Anchor");
    assert_eq!(r.unwrap_err(), "App 'Browser' is not installed");
}

#[test]
fn test_save_env_rejects_non_object_values() {
    let mut ctx = test_context();
    app::install(&mut ctx, "Browser", None, "Anchor").unwrap();
    let values = json("[1, 2]");
    let r = app::save_app_env(&mut ctx, "Browser", &values, "Anchor");
    assert_eq!(r.unwrap_err(), "Invalid env_values format");
}
