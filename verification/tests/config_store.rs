use fleur_lib::app::{self, AppContext};
use fleur_lib::clients::ClientType;
use fleur_lib::json::JsonValue;

fn json(text: &str) -> JsonValue {
    fleur_lib::json::parse_json(text).expect("test document parses")
}

#[test]
fn test_ensure_mcp_servers() {
    // An empty object gains an empty mcpServers object.
    let mut config = json("{}");
    app::ensure_mcp_servers(&mut config).unwrap();
    match config.obj_get("mcpServers") {
        Some(v) => assert!(matches!(v, JsonValue::Obj(_))),
        None => panic!("mcpServers should exist"),
    }

    // An existing mcpServers object is preserved.
    let mut config = json("{\"mcpServers\": {\"existing\": \"value\"}}");
    app::ensure_mcp_servers(&mut config).unwrap();
    let servers = config.obj_get("mcpServers").unwrap();
    assert!(matches!(servers, JsonValue::Obj(_)));
    assert_eq!(
        servers.obj_get("existing"),
        Some(&JsonValue::Str("value".to_string()))
    );
}

#[test]
fn test_ensure_mcp_servers_coerces_malformed() {
    let mut config = json("{\"mcpServers\": 3, \"other\": true}");
    app::ensure_mcp_servers(&mut config).unwrap();
    assert!(matches!(config.obj_get("mcpServers"), Some(JsonValue::Obj(_))));
    assert_eq!(config.obj_get("other"), Some(&JsonValue::Bool(true)));
}

#[test]
fn test_default_config() {
    let doc = app::default_config();
    assert!(matches!(doc.obj_get("mcpServers"), Some(JsonValue::Obj(_))));
    assert_eq!(doc.to_pretty_string(), "{\n  \"mcpServers\": {}\n}");
}

#[test]
fn test_get_config_parses_and_caches() {
    let mut ctx = AppContext::new();
    app::set_test_config_path(&mut ctx, Some("/tmp/store-test.json".to_string()));
    let content = "{\n  \"mcpServers\": {},\n  \"keep\": [1, 2]\n}";
    let first = app::get_config(&mut ctx, &ClientType::Anchor, Some(content)).unwrap();
    assert!(first.obj_has("keep"));
    // A second read comes from the cache, without content.
    let second = app::get_config(&mut ctx, &ClientType::Anchor, None).unwrap();
    assert!(first.deep_eq(&second));
}

#[test]
fn test_get_config_rejects_unparseable_content() {
    let mut ctx = AppContext::new();
    let r = app::get_config(&mut ctx, &ClientType::Anchor, Some("{ not json"));
    assert!(r.is_err());
}

#[test]
fn test_save_then_get_round_trip() {
    let mut ctx = AppContext::new();
    app::set_test_config_path(&mut ctx, Some("/tmp/store-roundtrip.json".to_string()));
    let doc = json(
        "{\"mcpServers\": {\"time\": {\"command\": \"npx\"}}, \"unrelated\": {\"kept\": true}}",
    );
    let (path, content) = app::save_config(&mut ctx, &doc, &ClientType::Anchor).unwrap();
    assert_eq!(path, "/tmp/store-roundtrip.json");
    // The rendered content is the document itself.
    assert!(json(&content).deep_eq(&doc));
    // get after save returns a value deep-equal to the input, the
    // unrelated top-level key included.
    let back = app::get_config(&mut ctx, &ClientType::Anchor, None).unwrap();
    assert!(back.deep_eq(&doc));
    assert_eq!(back, doc);
}

#[test]
fn test_cache_cleared_by_path_override() {
    let mut ctx = AppContext::new();
    app::set_test_config_path(&mut ctx, Some("/tmp/a.json".to_string()));
    let doc = json("{\"mcpServers\": {}}");
    app::save_config(&mut ctx, &doc, &ClientType::Anchor).unwrap();
    assert!(app::get_config(&mut ctx, &ClientType::Anchor, None).is_ok());
    // Changing the path override clears the whole cache.
    app::set_test_config_path(&mut ctx, Some("/tmp/b.json".to_string()));
    assert!(app::get_config(&mut ctx, &ClientType::Anchor, None).is_err());
}

#[test]
fn test_per_client_cache_isolation() {
    let mut ctx = AppContext::new();
    app::set_test_config_path(&mut ctx, Some("/tmp/c.json".to_string()));
    let doc_a = json("{\"mcpServers\": {\"a\": {}}}");
    app::save_config(&mut ctx, &doc_a, &ClientType::Anchor).unwrap();
    app::invalidate_client_cache(&mut ctx, &ClientType::Anchor);
    assert!(app::get_config(&mut ctx, &ClientType::Anchor, None).is_err());
}

#[test]
fn test_registry_cache() {
    let mut ctx = AppContext::new();
    assert!(app::get_cached_registry(&ctx).is_none());
    let registry = json("[{\"name\": \"Browser\"}]");
    app::store_registry(&mut ctx, registry.deep_clone());
    let cached = app::get_cached_registry(&ctx).unwrap();
    assert!(cached.deep_eq(&registry));
    app::clear_registry(&mut ctx);
    assert!(app::get_cached_registry(&ctx).is_none());
}

#[test]
fn test_client_path_configs() {
    let mut reg = fleur_lib::clients::ClientPathRegistry::new();
    fleur_lib::clients::seed_default_configs(&mut reg, "/home/u");
    let cfg = fleur_lib::clients::get_client_path_config(&mut reg, &ClientType::Anchor).unwrap();
    assert_eq!(cfg.base_dir, "/home/u/Library/Application Support/Anchor");
    assert_eq!(cfg.config_filename, "anchor_desktop_config.json");
    let cursor = fleur_lib::clients::get_client_path_config(&mut reg, &ClientType::Cursor).unwrap();
    assert_eq!(cursor.config_filename, "mcp.json");
    let windsurf =
        fleur_lib::clients::get_client_path_config(&mut reg, &ClientType::Windsurf).unwrap();
    assert_eq!(windsurf.config_filename, "mcp_config.json");

    // The last stored configuration wins: a set entry is what the next
    // get returns, and the seeded table is never reseeded over it.
    let override_cfg = fleur_lib::clients::ClientPathConfig {
        base_dir: "/custom/dir".to_string(),
        config_filename: "custom.json".to_string(),
        os: fleur_lib::os::OSType::default(),
    };
    fleur_lib::clients::set_client_path_config(&mut reg, &ClientType::Cursor, override_cfg)
        .unwrap();
    let got = fleur_lib::clients::get_client_path_config(&mut reg, &ClientType::Cursor).unwrap();
    assert_eq!(got.base_dir, "/custom/dir");
    assert_eq!(got.config_filename, "custom.json");
}

#[test]
fn test_client_type_round_trips() {
    for c in ClientType::all() {
        assert_eq!(ClientType::from_str(c.as_str()), Some(c));
    }
    assert_eq!(ClientType::from_str("Unknown"), None);
    assert_eq!(ClientType::default(), ClientType::Anchor);
    assert_eq!(ClientType::all_as_str(), vec!["Anchor", "Cursor", "Windsurf"]);
    assert!(fleur_lib::clients::validate_client(&ClientType::Windsurf).is_ok());
}

#[test]
fn test_set_client_config_path_clears_cache() {
    let mut ctx = AppContext::new();
    app::set_client_config_path(&mut ctx, "Cursor", "/tmp/cfg", "mcp.json").unwrap();
    let path_obj = app::get_client_config_path(&mut ctx, "Cursor").unwrap();
    assert_eq!(
        path_obj.obj_get("base_dir"),
        Some(&JsonValue::Str("/tmp/cfg".to_string()))
    );
    assert_eq!(
        path_obj.obj_get("config_filename"),
        Some(&JsonValue::Str("mcp.json".to_string()))
    );

    app::get_config(&mut ctx, &ClientType::Cursor, Some("{\"mcpServers\": {}}")).unwrap();
    assert!(app::get_config(&mut ctx, &ClientType::Cursor, None).is_ok());
    // Updating the path drops the client's cached document.
    app::set_client_config_path(&mut ctx, "Cursor", "/tmp/cfg2", "mcp.json").unwrap();
    assert!(app::get_config(&mut ctx, &ClientType::Cursor, None).is_err());

    let r = app::set_client_config_path(&mut ctx, "Netscape", "/tmp", "x.json");
    assert_eq!(r.unwrap_err(), "Invalid client: Netscape");
}

#[test]
fn test_supported_client_commands() {
    assert_eq!(
        app::get_supported_clients(),
        vec!["Anchor".to_string(), "Cursor".to_string(), "Windsurf".to_string()]
    );
    assert_eq!(app::get_default_client_command(), "Anchor");
}
