//! The configuration store and the install/uninstall/query orchestrator:
//! per-client cached JSON documents, catalog resolution, and the edits that
//! register or remove an integration.

use vstd::prelude::*;
use crate::clients::{self, ClientType, ClientPathRegistry, reg_entry};
use crate::environment::{EnvSetup, SetupRunResult, ensure_environment_sync};
use crate::json::{JsonValue, JVal, jget, jset, jval_at, spec_render, spec_parse, parse_json};

verus! {

/// The resolved launch configuration of one catalog entry.
#[derive(Debug)]
pub struct AppConfig {
    pub mcp_key: String,
    pub command: String,
    pub args: Vec<String>,
}

impl View for AppConfig {
    type V = (Seq<char>, Seq<char>, Seq<Seq<char>>);

    open spec fn view(&self) -> (Seq<char>, Seq<char>, Seq<Seq<char>>) {
        (self.mcp_key@, self.command@, self.args.deep_view())
    }
}

/// The per-client cache of configuration documents.
#[derive(Debug)]
pub struct ConfigCache {
    pub anchor: Option<JsonValue>,
    pub cursor: Option<JsonValue>,
    pub windsurf: Option<JsonValue>,
}

/// The cached document of a client, as a model.
pub open spec fn cache_view(cache: ConfigCache, c: ClientType) -> Option<JVal> {
    match c {
        ClientType::Anchor => match cache.anchor {
            Some(v) => Some(jval_at(v)),
            None => None,
        },
        ClientType::Cursor => match cache.cursor {
            Some(v) => Some(jval_at(v)),
            None => None,
        },
        ClientType::Windsurf => match cache.windsurf {
            Some(v) => Some(jval_at(v)),
            None => None,
        },
    }
}

/// Whether the cache holds no document at all.
pub open spec fn cache_is_empty(cache: ConfigCache) -> bool {
    cache.anchor is None && cache.cursor is None && cache.windsurf is None
}

impl ConfigCache {
    /// A cache with no documents.
    pub fn new() -> (r: ConfigCache)
        ensures
            cache_is_empty(r),
    {
        ConfigCache { anchor: None, cursor: None, windsurf: None }
    }

    /// A copy of the cached document of a client, if any.
    pub fn lookup(&self, client: &ClientType) -> (r: Option<JsonValue>)
        ensures
            match r {
                Some(v) => cache_view(*self, *client) == Some(v@),
                None => cache_view(*self, *client) is None,
            },
    {
        let slot: &Option<JsonValue> = match client {
            ClientType::Anchor => &self.anchor,
            ClientType::Cursor => &self.cursor,
            ClientType::Windsurf => &self.windsurf,
        };
        match slot {
            Some(v) => Some(v.deep_clone()),
            None => None,
        }
    }

    /// Store a client's document, replacing any cached one.
    pub fn store(&mut self, client: &ClientType, doc: JsonValue)
        ensures
            cache_view(*final(self), *client) == Some(jval_at(doc)),
            forall|c: ClientType| c != *client ==> cache_view(*final(self), c) == cache_view(
                *old(self),
                c,
            ),
    {
        match client {
            ClientType::Anchor => {
                self.anchor = Some(doc);
            },
            ClientType::Cursor => {
                self.cursor = Some(doc);
            },
            ClientType::Windsurf => {
                self.windsurf = Some(doc);
            },
        }
    }

    /// Drop a client's cached document.
    pub fn clear(&mut self, client: &ClientType)
        ensures
            cache_view(*final(self), *client) is None,
            forall|c: ClientType| c != *client ==> cache_view(*final(self), c) == cache_view(
                *old(self),
                c,
            ),
    {
        match client {
            ClientType::Anchor => {
                self.anchor = None;
            },
            ClientType::Cursor => {
                self.cursor = None;
            },
            ClientType::Windsurf => {
                self.windsurf = None;
            },
        }
    }

    /// Drop every cached document.
    pub fn clear_all(&mut self)
        ensures
            cache_is_empty(*final(self)),
    {
        self.anchor = None;
        self.cursor = None;
        self.windsurf = None;
    }
}

/// Everything the components share: the client path table, the provisioning
/// state, the document cache, the test path override and the cached
/// catalog. Built once at process start and handed to every operation.
#[derive(Debug)]
pub struct AppContext {
    pub clients: ClientPathRegistry,
    pub env: EnvSetup,
    pub config_cache: ConfigCache,
    pub test_config_path: Option<String>,
    pub registry_cache: Option<JsonValue>,
}

impl AppContext {
    /// A fresh context: empty tables, nothing probed, nothing cached.
    pub fn new() -> (r: AppContext)
        ensures
            clients::reg_is_empty(r.clients),
            !r.env.test_mode,
            !r.env.setup_completed,
            cache_is_empty(r.config_cache),
            r.test_config_path is None,
            r.registry_cache is None,
    {
        AppContext {
            clients: ClientPathRegistry::new(),
            env: EnvSetup::new(),
            config_cache: ConfigCache::new(),
            test_config_path: None,
            registry_cache: None,
        }
    }
}

/// Seed the client path table with host defaults, once.
pub fn init_client_path_configs(ctx: &mut AppContext)
    ensures
        !clients::reg_is_empty(old(ctx).clients) ==> final(ctx).clients == old(ctx).clients,
        clients::reg_is_empty(old(ctx).clients) ==> (final(ctx).clients == old(ctx).clients || (
        exists|h: Seq<char>| clients::seeded_default(final(ctx).clients, h))),
        final(ctx).env == old(ctx).env,
        final(ctx).config_cache == old(ctx).config_cache,
        final(ctx).test_config_path == old(ctx).test_config_path,
        final(ctx).registry_cache == old(ctx).registry_cache,
{
    clients::init_client_path_configs(&mut ctx.clients);
}

/// Point every client at one configuration file, for test isolation, or
/// drop the override; either way the whole document cache is cleared.
pub fn set_test_config_path(ctx: &mut AppContext, path: Option<String>)
    ensures
        final(ctx).test_config_path == path,
        cache_is_empty(final(ctx).config_cache),
        final(ctx).clients == old(ctx).clients,
        final(ctx).env == old(ctx).env,
        final(ctx).registry_cache == old(ctx).registry_cache,
{
    ctx.test_config_path = path;
    ctx.config_cache.clear_all();
}

/// The client used when the caller names none.
pub fn get_default_client() -> (r: ClientType)
    ensures
        r == ClientType::Anchor,
{
    clients::get_default_client()
}

/// Guard: every value of the closed client type is supported.
pub fn validate_client(client: &ClientType) -> (r: Result<(), String>)
    ensures
        r is Ok,
{
    clients::validate_client(client)
}

/// The path of a client's configuration file: the test override when one
/// is set, else the client's base directory joined with its file name.
pub fn get_config_path(ctx: &mut AppContext, client: &ClientType) -> (r: Result<String, String>)
    ensures
        !clients::reg_is_empty(old(ctx).clients) ==> final(ctx).clients == old(ctx).clients,
        final(ctx).env == old(ctx).env,
        final(ctx).config_cache == old(ctx).config_cache,
        final(ctx).test_config_path == old(ctx).test_config_path,
        final(ctx).registry_cache == old(ctx).registry_cache,
        match r {
            Ok(p) => match old(ctx).test_config_path {
                Some(tp) => p@ == tp@,
                None => reg_entry(final(ctx).clients, *client) matches Some(e) && (p@ == e.base_dir@
                    + "/"@ + e.config_filename@),
            },
            Err(m) => old(ctx).test_config_path is None && reg_entry(
                final(ctx).clients,
                *client,
            ) is None,
        },
{
    match validate_client(client) {
        Ok(_) => {},
        Err(e) => {
            return Err(e);
        },
    }
    match &ctx.test_config_path {
        Some(tp) => Ok(tp.clone()),
        None => {
            match clients::get_client_path_config(&mut ctx.clients, client) {
                Ok(cfg) => Ok(cfg.base_dir.concat("/").concat(cfg.config_filename.as_str())),
                Err(m) => Err(m),
            }
        },
    }
}

/// Make sure the environment has been provisioned before an operation that
/// needs it: a no-op in test mode and when provisioning has completed;
/// otherwise settled by the outcome of a provisioning run, as the blocking
/// setup entry point states.
pub fn ensure_env_setup(ctx: &mut AppContext, run: Option<&SetupRunResult>) -> (r: Result<
    (),
    String,
>)
    ensures
        final(ctx).clients == old(ctx).clients,
        final(ctx).config_cache == old(ctx).config_cache,
        final(ctx).test_config_path == old(ctx).test_config_path,
        final(ctx).registry_cache == old(ctx).registry_cache,
        old(ctx).env.test_mode ==> r is Ok && final(ctx).env == old(ctx).env,
        !old(ctx).env.test_mode && old(ctx).env.setup_completed ==> r is Ok && final(ctx).env
            == old(ctx).env,
        run is None ==> final(ctx).env == old(ctx).env,
        r is Ok <==> (old(ctx).env.test_mode || old(ctx).env.setup_completed || (
        run matches Some(o) && (*o matches SetupRunResult::Completed))),
        final(ctx).env.setup_completed == (old(ctx).env.setup_completed || (
        !old(ctx).env.test_mode && (run matches Some(o) && (
        *o matches SetupRunResult::Completed)))),
{
    match ensure_environment_sync(&mut ctx.env, run) {
        Ok(_) => Ok(()),
        Err(e) => Err(e),
    }
}

/// The shape every loaded document is coerced to: an object whose
/// `mcpServers` field is an object. A missing or malformed `mcpServers`
/// field becomes an empty object; every other field stays as it is; a
/// document that is no object at all is replaced by one that holds only an
/// empty `mcpServers` object.
pub open spec fn ensure_servers_spec(v: JVal) -> JVal {
    match v {
        JVal::Obj(fs) => match crate::json::oget(fs, "mcpServers"@) {
            Some(s) => if s is Obj {
                v
            } else {
                JVal::Obj(crate::json::oset(fs, "mcpServers"@, JVal::Obj(Seq::empty())))
            },
            None => JVal::Obj(crate::json::oset(fs, "mcpServers"@, JVal::Obj(Seq::empty()))),
        },
        _ => JVal::Obj(seq![("mcpServers"@, JVal::Obj(Seq::empty()))]),
    }
}

/// Coerce a document in place to the invariant shape: the top-level
/// `mcpServers` key exists and is an object. Never an error.
pub fn ensure_mcp_servers(config: &mut JsonValue) -> (r: Result<(), String>)
    ensures
        r is Ok,
        jval_at(*final(config)) == ensure_servers_spec(jval_at(*old(config))),
{
    let shape_ok = match config.obj_get("mcpServers") {
        Some(v) => v.is_object(),
        None => false,
    };
    if config.is_object() {
        if shape_ok {
            return Ok(());
        }
        let mut taken = JsonValue::Null;
        core::mem::swap(config, &mut taken);
        let mut fixed = taken.obj_set("mcpServers", JsonValue::empty_object());
        core::mem::swap(config, &mut fixed);
        Ok(())
    } else {
        let mut fresh = JsonValue::empty_object().obj_set("mcpServers", JsonValue::empty_object());
        proof {
            crate::json::lemma_oset_absent(Seq::empty(), "mcpServers"@, JVal::Obj(Seq::empty()));
        }
        core::mem::swap(config, &mut fresh);
        Ok(())
    }
}

/// A minimal valid configuration document: an empty `mcpServers` object
/// and nothing else.
pub fn default_config() -> (r: JsonValue)
    ensures
        r@ == JVal::Obj(seq![("mcpServers"@, JVal::Obj(Seq::empty()))]),
{
    let r = JsonValue::empty_object().obj_set("mcpServers", JsonValue::empty_object());
    proof {
        crate::json::lemma_oset_absent(Seq::empty(), "mcpServers"@, JVal::Obj(Seq::empty()));
    }
    r
}

/// A client's configuration document. A cached copy is returned as it is;
/// otherwise the given file content is parsed — a hard error when it is not
/// valid JSON — coerced to the invariant shape, cached and returned; with
/// no cached copy and no content there is nothing to return.
pub fn get_config(ctx: &mut AppContext, client: &ClientType, content: Option<&str>) -> (r: Result<
    JsonValue,
    String,
>)
    ensures
        final(ctx).clients == old(ctx).clients,
        final(ctx).env == old(ctx).env,
        final(ctx).test_config_path == old(ctx).test_config_path,
        final(ctx).registry_cache == old(ctx).registry_cache,
        match cache_view(old(ctx).config_cache, *client) {
            Some(d) => r matches Ok(v) && jval_at(v) == d && final(ctx).config_cache == old(
                ctx,
            ).config_cache,
            None => match content {
                Some(s) => match spec_parse(s@) {
                    Some(parsed) => r matches Ok(v) && jval_at(v) == ensure_servers_spec(parsed)
                        && cache_view(final(ctx).config_cache, *client) == Some(
                        ensure_servers_spec(parsed),
                    ) && (forall|c: ClientType|
                        c != *client ==> cache_view(final(ctx).config_cache, c) == cache_view(
                            old(ctx).config_cache,
                            c,
                        )),
                    None => r is Err && final(ctx).config_cache == old(ctx).config_cache,
                },
                None => r is Err && final(ctx).config_cache == old(ctx).config_cache,
            },
        },
{
    match validate_client(client) {
        Ok(_) => {},
        Err(e) => {
            return Err(e);
        },
    }
    match ctx.config_cache.lookup(client) {
        Some(doc) => Ok(doc),
        None => {
            match content {
                Some(s) => {
                    match parse_json(s) {
                        Some(mut doc) => {
                            match ensure_mcp_servers(&mut doc) {
                                Ok(_) => {},
                                Err(e) => {
                                    return Err(e);
                                },
                            }
                            let copy = doc.deep_clone();
                            ctx.config_cache.store(client, doc);
                            Ok(copy)
                        },
                        None => Err("Failed to parse config JSON".to_owned()),
                    }
                },
                None => Err("Failed to read config file: no content available".to_owned()),
            }
        },
    }
}

/// Persist a client's document: the whole rendered file replaces the old
/// one, and the cache is updated to exactly the value being written, so
/// cache and disk agree after the write. The caller writes the returned
/// content to the returned path; if that write fails, it drops the
/// client's cache entry.
pub fn save_config(ctx: &mut AppContext, config: &JsonValue, client: &ClientType) -> (r: Result<
    (String, String),
    String,
>)
    ensures
        !clients::reg_is_empty(old(ctx).clients) ==> final(ctx).clients == old(ctx).clients,
        final(ctx).env == old(ctx).env,
        final(ctx).test_config_path == old(ctx).test_config_path,
        final(ctx).registry_cache == old(ctx).registry_cache,
        match r {
            Ok(pc) => pc.1@ == spec_render(jval_at(*config), Seq::<char>::empty()) && cache_view(
                final(ctx).config_cache,
                *client,
            ) == Some(jval_at(*config)) && (forall|c: ClientType|
                c != *client ==> cache_view(final(ctx).config_cache, c) == cache_view(
                    old(ctx).config_cache,
                    c,
                )) && match old(ctx).test_config_path {
                Some(tp) => pc.0@ == tp@,
                None => reg_entry(final(ctx).clients, *client) matches Some(e) && (pc.0@
                    == e.base_dir@ + "/"@ + e.config_filename@),
            },
            Err(m) => old(ctx).test_config_path is None && reg_entry(
                final(ctx).clients,
                *client,
            ) is None && final(ctx).config_cache == old(ctx).config_cache,
        },
{
    let path = match get_config_path(ctx, client) {
        Ok(p) => p,
        Err(m) => {
            return Err(m);
        },
    };
    let content = config.to_pretty_string();
    ctx.config_cache.store(client, config.deep_clone());
    Ok((path, content))
}

/// Drop a client's cached document, after a failed write, so that the next
/// read goes back to the file.
pub fn invalidate_client_cache(ctx: &mut AppContext, client: &ClientType)
    ensures
        cache_view(final(ctx).config_cache, *client) is None,
        final(ctx).clients == old(ctx).clients,
        final(ctx).env == old(ctx).env,
        final(ctx).test_config_path == old(ctx).test_config_path,
        final(ctx).registry_cache == old(ctx).registry_cache,
{
    ctx.config_cache.clear(client);
}

/// A copy of the cached catalog, if one has been stored.
pub fn get_cached_registry(ctx: &AppContext) -> (r: Option<JsonValue>)
    ensures
        match r {
            Some(v) => ctx.registry_cache matches Some(c) && jval_at(v) == jval_at(c),
            None => ctx.registry_cache is None,
        },
{
    match &ctx.registry_cache {
        Some(v) => Some(v.deep_clone()),
        None => None,
    }
}

/// Cache a fetched catalog; the next read uses it without fetching.
pub fn store_registry(ctx: &mut AppContext, registry: JsonValue)
    ensures
        final(ctx).registry_cache matches Some(c) && jval_at(c) == jval_at(registry),
        final(ctx).clients == old(ctx).clients,
        final(ctx).env == old(ctx).env,
        final(ctx).config_cache == old(ctx).config_cache,
        final(ctx).test_config_path == old(ctx).test_config_path,
{
    ctx.registry_cache = Some(registry);
}

/// Drop the cached catalog, forcing the next read to fetch anew.
pub fn clear_registry(ctx: &mut AppContext)
    ensures
        final(ctx).registry_cache is None,
        final(ctx).clients == old(ctx).clients,
        final(ctx).env == old(ctx).env,
        final(ctx).config_cache == old(ctx).config_cache,
        final(ctx).test_config_path == old(ctx).test_config_path,
{
    ctx.registry_cache = None;
}


/// The concrete command of a catalog `runtime` keyword: the launcher shim
/// for `npx`, the package launcher for `uvx`, the keyword itself as a
/// literal command otherwise.
pub open spec fn runtime_command(rt: Seq<char>, npx: Seq<char>, uvx: Seq<char>) -> Seq<char> {
    if rt == "npx"@ {
        npx
    } else if rt == "uvx"@ {
        uvx
    } else {
        rt
    }
}

/// The argument strings of a catalog entry: each array element that is a
/// string stands as it is, anything else as an empty string.
pub open spec fn arg_strs(items: Seq<JVal>) -> Seq<Seq<char>>
    decreases items,
{
    if items.len() == 0 {
        Seq::empty()
    } else {
        let head = match items[0] {
            JVal::Str(s) => s,
            _ => Seq::<char>::empty(),
        };
        seq![head] + arg_strs(items.subrange(1, items.len() as int))
    }
}

/// The argument strings, described pointwise.
pub proof fn lemma_arg_strs(items: Seq<JVal>)
    ensures
        arg_strs(items).len() == items.len(),
        forall|i: int| 0 <= i < items.len() ==> arg_strs(items)[i] == (match items[i] {
            JVal::Str(s) => s,
            _ => Seq::<char>::empty(),
        }),
    decreases items,
{
    if items.len() > 0 {
        lemma_arg_strs(items.subrange(1, items.len() as int));
        assert forall|i: int| 0 <= i < items.len() implies arg_strs(items)[i] == (match items[i] {
            JVal::Str(s) => s,
            _ => Seq::<char>::empty(),
        }) by {
            if i > 0 {
                assert(items.subrange(1, items.len() as int)[i - 1] == items[i]);
            }
        }
    }
}

/// The resolved launch configuration of one catalog entry, or the message
/// naming the first missing piece.
pub open spec fn entry_config(e: JVal, npx: Seq<char>, uvx: Seq<char>) -> Result<
    (Seq<char>, (Seq<char>, Seq<char>, Seq<Seq<char>>)),
    Seq<char>,
> {
    match jget(e, "name"@) {
        Some(JVal::Str(name)) => match jget(e, "config"@) {
            Some(JVal::Obj(cfg)) => match crate::json::oget(cfg, "mcpKey"@) {
                Some(JVal::Str(key)) => match crate::json::oget(cfg, "runtime"@) {
                    Some(JVal::Str(rt)) => match crate::json::oget(cfg, "args"@) {
                        Some(JVal::Arr(items)) => Ok(
                            (name, (key, runtime_command(rt, npx, uvx), arg_strs(items))),
                        ),
                        _ => Err("args is missing"@),
                    },
                    _ => Err("runtime is missing"@),
                },
                _ => Err("mcpKey is missing"@),
            },
            _ => Err("App config is missing"@),
        },
        _ => Err("App name is missing"@),
    }
}

/// The resolved launch configurations of the catalog entries from the
/// front, or the first entry's error.
pub open spec fn spec_app_configs(entries: Seq<JVal>, npx: Seq<char>, uvx: Seq<char>) -> Result<
    Seq<(Seq<char>, (Seq<char>, Seq<char>, Seq<Seq<char>>))>,
    Seq<char>,
>
    decreases entries,
{
    if entries.len() == 0 {
        Ok(Seq::empty())
    } else {
        match entry_config(entries[0], npx, uvx) {
            Ok(head) => match spec_app_configs(entries.subrange(1, entries.len() as int), npx, uvx) {
                Ok(rest) => Ok(seq![head] + rest),
                Err(m) => Err(m),
            },
            Err(m) => Err(m),
        }
    }
}

/// The whole catalog resolved, or why it cannot be: the catalog must be an
/// array of entries.
pub open spec fn spec_catalog(reg: JVal, npx: Seq<char>, uvx: Seq<char>) -> Result<
    Seq<(Seq<char>, (Seq<char>, Seq<char>, Seq<Seq<char>>))>,
    Seq<char>,
> {
    match reg {
        JVal::Arr(entries) => spec_app_configs(entries, npx, uvx),
        _ => Err("App registry is not an array"@),
    }
}

/// The models of resolved catalog entries, in order.
pub open spec fn cfg_views(s: Seq<(String, AppConfig)>) -> Seq<
    (Seq<char>, (Seq<char>, Seq<char>, Seq<Seq<char>>)),
>
    decreases s,
{
    if s.len() == 0 {
        Seq::empty()
    } else {
        seq![(s[0].0@, s[0].1@)] + cfg_views(s.subrange(1, s.len() as int))
    }
}

/// The catalog entry models, described pointwise.
pub proof fn lemma_cfg_views(s: Seq<(String, AppConfig)>)
    ensures
        cfg_views(s).len() == s.len(),
        forall|i: int| 0 <= i < s.len() ==> cfg_views(s)[i] == (s[i].0@, s[i].1@),
    decreases s,
{
    if s.len() > 0 {
        lemma_cfg_views(s.subrange(1, s.len() as int));
        assert forall|i: int| 0 <= i < s.len() implies cfg_views(s)[i] == (s[i].0@, s[i].1@) by {
            if i > 0 {
                assert(s.subrange(1, s.len() as int)[i - 1] == s[i]);
            }
        }
    }
}

/// The launcher-shim path used when probing is replaced by canned test
/// outcomes.
pub open spec fn test_npx_chars() -> Seq<char> {
    "/test/.local/share/fleur/bin/npx-fleur"@
}

/// The package-launcher path used when probing is replaced by canned test
/// outcomes.
pub open spec fn test_uvx_chars() -> Seq<char> {
    "/test/.local/bin/uvx"@
}

/// The launcher paths the orchestrator resolves commands with: canned in
/// test mode, else the recorded probe results.
pub open spec fn spec_tool_paths(env: EnvSetup) -> Option<(Seq<char>, Seq<char>)> {
    if env.test_mode {
        Some((test_npx_chars(), test_uvx_chars()))
    } else {
        match (env.npx_shim, env.uvx_path) {
            (Some(n), Some(u)) => Some((n@, u@)),
            _ => None,
        }
    }
}

/// Resolve every catalog entry to its launch configuration, pairing each
/// entry's name with the command the `runtime` keyword stands for and its
/// raw argument template. Needs the launcher paths (canned in test mode)
/// and a fetched catalog.
pub fn get_app_configs(ctx: &AppContext) -> (r: Result<Vec<(String, AppConfig)>, String>)
    ensures
        match r {
            Ok(cfgs) => spec_tool_paths(ctx.env) matches Some(paths)
                && ctx.registry_cache matches Some(reg) && spec_catalog(
                jval_at(reg),
                paths.0,
                paths.1,
            ) == Ok::<_, Seq<char>>(cfg_views(cfgs@)),
            Err(m) => spec_tool_paths(ctx.env) is None || ctx.registry_cache is None || (
            ctx.registry_cache matches Some(reg) && spec_tool_paths(ctx.env) matches Some(paths)
                && spec_catalog(jval_at(reg), paths.0, paths.1) == Err::<
                Seq<(Seq<char>, (Seq<char>, Seq<char>, Seq<Seq<char>>))>,
                _,
            >(m@)),
        },
{
    let npx: String;
    let uvx: String;
    if ctx.env.test_mode {
        npx = "/test/.local/share/fleur/bin/npx-fleur".to_owned();
        uvx = "/test/.local/bin/uvx".to_owned();
    } else {
        match (&ctx.env.npx_shim, &ctx.env.uvx_path) {
            (Some(n), Some(u)) => {
                npx = n.clone();
                uvx = u.clone();
            },
            _ => {
                return Err("Environment tooling paths are not resolved".to_owned());
            },
        }
    }
    match &ctx.registry_cache {
        None => Err("App registry has not been fetched".to_owned()),
        Some(reg) => {
            match reg.as_array() {
                None => Err("App registry is not an array".to_owned()),
                Some(entries) => {
                    proof {
                        crate::json::lemma_jvals_of(entries@);
                        assert(crate::json::jvals_of(entries@).subrange(
                            0,
                            entries@.len() as int,
                        ) =~= crate::json::jvals_of(entries@));
                    }
                    configs_from(entries, 0, npx.as_str(), uvx.as_str())
                },
            }
        },
    }
}

/// Resolve the catalog entries from position `i` on.
fn configs_from(entries: &Vec<JsonValue>, i: usize, npx: &str, uvx: &str) -> (r: Result<
    Vec<(String, AppConfig)>,
    String,
>)
    requires
        i <= entries@.len(),
    ensures
        ({
            let s = spec_app_configs(
                crate::json::jvals_of(entries@).subrange(i as int, entries@.len() as int),
                npx@,
                uvx@,
            );
            match s {
                Ok(views) => r matches Ok(cfgs) && cfg_views(cfgs@) == views,
                Err(m) => r matches Err(mm) && mm@ == m,
            }
        }),
    decreases entries@.len() - i,
{
    proof {
        crate::json::lemma_jvals_of(entries@);
    }
    let ghost tail = crate::json::jvals_of(entries@).subrange(i as int, entries@.len() as int);
    if i >= entries.len() {
        proof {
            assert(tail =~= Seq::<JVal>::empty());
        }
        return Ok(Vec::new());
    }
    proof {
        assert(tail[0] == jval_at(entries@[i as int]));
    }
    let entry = &entries[i];
    let name: String = match entry.obj_get("name") {
        Some(v) => match v.as_str() {
            Some(s) => s.clone(),
            None => {
                return Err("App name is missing".to_owned());
            },
        },
        None => {
            return Err("App name is missing".to_owned());
        },
    };
    let cfg: &JsonValue = match entry.obj_get("config") {
        Some(v) => {
            if v.is_object() {
                v
            } else {
                return Err("App config is missing".to_owned());
            }
        },
        None => {
            return Err("App config is missing".to_owned());
        },
    };
    let mcp_key: String = match cfg.obj_get("mcpKey") {
        Some(v) => match v.as_str() {
            Some(s) => s.clone(),
            None => {
                return Err("mcpKey is missing".to_owned());
            },
        },
        None => {
            return Err("mcpKey is missing".to_owned());
        },
    };
    let runtime: String = match cfg.obj_get("runtime") {
        Some(v) => match v.as_str() {
            Some(s) => s.clone(),
            None => {
                return Err("runtime is missing".to_owned());
            },
        },
        None => {
            return Err("runtime is missing".to_owned());
        },
    };
    let command: String = if crate::json::str_eq(runtime.as_str(), "npx") {
        npx.to_owned()
    } else if crate::json::str_eq(runtime.as_str(), "uvx") {
        uvx.to_owned()
    } else {
        runtime
    };
    let args_items: &Vec<JsonValue> = match cfg.obj_get("args") {
        Some(v) => match v.as_array() {
            Some(items) => items,
            None => {
                return Err("args is missing".to_owned());
            },
        },
        None => {
            return Err("args is missing".to_owned());
        },
    };
    proof {
        crate::json::lemma_jvals_of(args_items@);
        lemma_arg_strs(crate::json::jvals_of(args_items@));
    }
    let mut args: Vec<String> = Vec::new();
    let mut k: usize = 0;
    while k < args_items.len()
        invariant
            0 <= k <= args_items@.len(),
            args@.len() == k,
            crate::json::jvals_of(args_items@).len() == args_items@.len(),
            forall|j: int| 0 <= j < args_items@.len() ==> crate::json::jvals_of(args_items@)[j]
                == jval_at(args_items@[j]),
            forall|j: int| 0 <= j < k ==> args@[j]@ == (match jval_at(args_items@[j]) {
                JVal::Str(s) => s,
                _ => Seq::<char>::empty(),
            }),
        decreases args_items@.len() - k,
    {
        match args_items[k].as_str() {
            Some(s) => {
                args.push(s.clone());
            },
            None => {
                args.push("".to_owned());
            },
        }
        proof {
            reveal_strlit("");
            assert(""@ =~= Seq::<char>::empty());
        }
        k += 1;
    }
    proof {
        assert(tail.subrange(1, tail.len() as int) =~= crate::json::jvals_of(entries@).subrange(
            i + 1,
            entries@.len() as int,
        ));
        assert(entry_config(tail[0], npx@, uvx@) is Ok);
    }
    let rest = match configs_from(entries, i + 1, npx, uvx) {
        Ok(v) => v,
        Err(m) => {
            return Err(m);
        },
    };
    let ghost namev = name@;
    let built = AppConfig { mcp_key, command, args };
    let ghost builtv = built@;
    let pair = (name, built);
    let ghost prg = pair;
    let mut out = rest;
    let ghost outv = out@;
    out.insert(0, pair);
    proof {
        let specs = arg_strs(crate::json::jvals_of(args_items@));
        assert(builtv.2 =~= specs);
        assert(entry_config(tail[0], npx@, uvx@) == Ok::<_, Seq<char>>((namev, builtv)));
        assert(tail.subrange(1, tail.len() as int) =~= crate::json::jvals_of(entries@).subrange(
            i + 1,
            entries@.len() as int,
        ));
        lemma_cfg_views(out@);
        lemma_cfg_views(outv);
        assert(out@ == outv.insert(0, prg));
        assert(out@ =~= seq![prg] + outv);
        assert((prg.0@, prg.1@) == (namev, builtv));
        assert(cfg_views(out@) =~= seq![(namev, builtv)] + cfg_views(outv));
    }
    Ok(out)
}


/// Each field of `e`, its value replaced by the override's first value for
/// that key where the override has one.
pub open spec fn replace_vals(e: Seq<(Seq<char>, JVal)>, o: Seq<(Seq<char>, JVal)>) -> Seq<
    (Seq<char>, JVal),
>
    decreases e,
{
    if e.len() == 0 {
        e
    } else {
        let v = match crate::json::oget(o, e[0].0) {
            Some(w) => w,
            None => e[0].1,
        };
        seq![(e[0].0, v)] + replace_vals(e.subrange(1, e.len() as int), o)
    }
}

/// Replacement, described pointwise.
pub proof fn lemma_replace_vals(e: Seq<(Seq<char>, JVal)>, o: Seq<(Seq<char>, JVal)>)
    ensures
        replace_vals(e, o).len() == e.len(),
        forall|i: int| 0 <= i < e.len() ==> replace_vals(e, o)[i] == (
            e[i].0,
            match crate::json::oget(o, e[i].0) {
                Some(w) => w,
                None => e[i].1,
            },
        ),
    decreases e,
{
    if e.len() > 0 {
        lemma_replace_vals(e.subrange(1, e.len() as int), o);
        assert forall|i: int| 0 <= i < e.len() implies replace_vals(e, o)[i] == (
        e[i].0,
        match crate::json::oget(o, e[i].0) {
            Some(w) => w,
            None => e[i].1,
        },
        ) by {
            if i > 0 {
                assert(e.subrange(1, e.len() as int)[i - 1] == e[i]);
            }
        }
    }
}

/// Append those override fields whose keys the accumulator does not hold
/// yet, from the front of `rest`.
pub open spec fn mrg(acc: Seq<(Seq<char>, JVal)>, rest: Seq<(Seq<char>, JVal)>) -> Seq<
    (Seq<char>, JVal),
>
    decreases rest,
{
    if rest.len() == 0 {
        acc
    } else if crate::json::ohas(acc, rest[0].0) {
        mrg(acc, rest.subrange(1, rest.len() as int))
    } else {
        mrg(acc.push(rest[0]), rest.subrange(1, rest.len() as int))
    }
}

/// The merge of an environment object with an override: the override wins
/// per key on the fields both hold, and override fields with new keys are
/// appended, first occurrence first.
pub open spec fn merge_fields(e: Seq<(Seq<char>, JVal)>, o: Seq<(Seq<char>, JVal)>) -> Seq<
    (Seq<char>, JVal),
> {
    mrg(replace_vals(e, o), o)
}

/// The fields of an object value; anything else has none.
pub open spec fn obj_fields_or_empty(v: Option<JVal>) -> Seq<(Seq<char>, JVal)> {
    match v {
        Some(JVal::Obj(fs)) => fs,
        _ => Seq::empty(),
    }
}

/// Merge two objects: the base's fields with the override's values where
/// the override has the key, then the override's remaining fields.
pub fn merge_objects(existing: &JsonValue, over: &JsonValue) -> (r: JsonValue)
    ensures
        r@ == JVal::Obj(
            merge_fields(
                obj_fields_or_empty(Some(existing@)),
                obj_fields_or_empty(Some(over@)),
            ),
        ),
{
    broadcast use crate::json::lemma_jfields_of;

    let ghost ef = obj_fields_or_empty(Some(jval_at(*existing)));
    let ghost of = obj_fields_or_empty(Some(jval_at(*over)));
    let mut out: Vec<(String, JsonValue)> = Vec::new();
    proof {
        crate::json::lemma_jfields_of(out@);
        lemma_replace_vals(ef, of);
    }
    match existing {
        JsonValue::Obj(efields) => {
            proof {
                crate::json::lemma_jfields_of(efields@);
            }
            let mut i: usize = 0;
            while i < efields.len()
                invariant
                    0 <= i <= efields@.len(),
                    ef == crate::json::jfields_of(efields@),
                    of == obj_fields_or_empty(Some(jval_at(*over))),
                    out@.len() == i,
                    replace_vals(ef, of).len() == ef.len(),
                    ef.len() == efields@.len(),
                    forall|j: int| 0 <= j < i ==> crate::json::jfields_of(out@)[j]
                        == replace_vals(ef, of)[j],
                    forall|j: int| 0 <= j < ef.len() ==> replace_vals(ef, of)[j] == (
                        ef[j].0,
                        match crate::json::oget(of, ef[j].0) {
                            Some(w) => w,
                            None => ef[j].1,
                        },
                    ),
                    forall|j: int| 0 <= j < ef.len() ==> ef[j] == (
                        efields@[j].0@,
                        jval_at(efields@[j].1),
                    ),
                decreases efields@.len() - i,
            {
                let key = efields[i].0.clone();
                let val: JsonValue = match over.obj_get(key.as_str()) {
                    Some(w) => w.deep_clone(),
                    None => efields[i].1.deep_clone(),
                };
                let ghost outb = out@;
                let pair = (key, val);
                let ghost prg = pair;
                out.push(pair);
                proof {
                    assert(out@ == outb.push(prg));
                    crate::json::lemma_jfields_of(out@);
                    crate::json::lemma_jfields_of(outb);
                    assert(crate::json::jfields_of(out@)[i as int] == (prg.0@, jval_at(prg.1)));
                    assert((prg.0@, jval_at(prg.1)) == replace_vals(ef, of)[i as int]);
                }
                i += 1;
            }
        },
        _ => {
            proof {
                assert(ef =~= Seq::<(Seq<char>, JVal)>::empty());
            }
        },
    }
    proof {
        crate::json::lemma_jfields_of(out@);
        assert(crate::json::jfields_of(out@) =~= replace_vals(ef, of));
    }
    match over {
        JsonValue::Obj(ofields) => {
            proof {
                crate::json::lemma_jfields_of(ofields@);
                assert(of.subrange(0, of.len() as int) =~= of);
            }
            let mut j: usize = 0;
            while j < ofields.len()
                invariant
                    0 <= j <= ofields@.len(),
                    of == crate::json::jfields_of(ofields@),
                    of.len() == ofields@.len(),
                    forall|t: int| 0 <= t < of.len() ==> of[t] == (
                        ofields@[t].0@,
                        jval_at(ofields@[t].1),
                    ),
                    mrg(crate::json::jfields_of(out@), of.subrange(j as int, of.len() as int))
                        == merge_fields(ef, of),
                decreases ofields@.len() - j,
            {
                let ghost outfs = crate::json::jfields_of(out@);
                let ghost rest = of.subrange(j as int, of.len() as int);
                proof {
                    assert(rest[0] == of[j as int]);
                    assert(rest.subrange(1, rest.len() as int) =~= of.subrange(
                        j + 1,
                        of.len() as int,
                    ));
                }
                let key = ofields[j].0.clone();
                if !crate::json::fields_have_key(&out, key.as_str()) {
                    let val = ofields[j].1.deep_clone();
                    let ghost outb = out@;
                    let pair = (key, val);
                    let ghost prg = pair;
                    out.push(pair);
                    proof {
                        assert(out@ == outb.push(prg));
                        crate::json::lemma_jfields_of(out@);
                        crate::json::lemma_jfields_of(outb);
                        assert forall|t: int| 0 <= t < out@.len() implies crate::json::jfields_of(
                            out@,
                        )[t] == outfs.push(of[j as int])[t] by {
                            if t < outb.len() {
                                assert(out@[t] == outb[t]);
                            } else {
                                assert(out@[t] == prg);
                                assert((prg.0@, jval_at(prg.1)) == of[j as int]);
                            }
                        }
                        assert(crate::json::jfields_of(out@) =~= outfs.push(of[j as int]));
                    }
                }
                j += 1;
            }
            proof {
                assert(of.subrange(of.len() as int, of.len() as int) =~= Seq::<
                    (Seq<char>, JVal),
                >::empty());
            }
        },
        _ => {
            proof {
                assert(of =~= Seq::<(Seq<char>, JVal)>::empty());
                assert(of.subrange(0, 0) =~= of);
            }
        },
    }
    proof {
        crate::json::lemma_jfields_of(out@);
    }
    JsonValue::Obj(out)
}


/// The launch arguments after substitution: each template string becomes a
/// JSON string with its placeholders filled from the environment object.
pub open spec fn subst_args(args: Seq<Seq<char>>, env: JVal) -> Seq<JVal>
    decreases args,
{
    if args.len() == 0 {
        Seq::empty()
    } else {
        seq![JVal::Str(crate::template::spec_subst(args[0], env))] + subst_args(
            args.subrange(1, args.len() as int),
            env,
        )
    }
}

/// Substituted arguments, described pointwise.
pub proof fn lemma_subst_args(args: Seq<Seq<char>>, env: JVal)
    ensures
        subst_args(args, env).len() == args.len(),
        forall|i: int| 0 <= i < args.len() ==> subst_args(args, env)[i] == JVal::Str(
            crate::template::spec_subst(args[i], env),
        ),
    decreases args,
{
    if args.len() > 0 {
        lemma_subst_args(args.subrange(1, args.len() as int), env);
        assert forall|i: int| 0 <= i < args.len() implies subst_args(args, env)[i] == JVal::Str(
            crate::template::spec_subst(args[i], env),
        ) by {
            if i > 0 {
                assert(args.subrange(1, args.len() as int)[i - 1] == args[i]);
            }
        }
    }
}

/// The document entry written for an installed integration: its resolved
/// command, its substituted arguments, and its environment object.
pub open spec fn install_entry(cfg: (Seq<char>, Seq<char>, Seq<Seq<char>>), env: JVal) -> JVal {
    JVal::Obj(
        seq![
            ("command"@, JVal::Str(cfg.1)),
            ("args"@, JVal::Arr(subst_args(cfg.2, env))),
            ("env"@, env),
        ],
    )
}

/// The environment already stored for an integration, if its entry holds
/// one.
pub open spec fn existing_env_of(servers: Seq<(Seq<char>, JVal)>, key: Seq<char>) -> Option<
    JVal,
> {
    match crate::json::oget(servers, key) {
        Some(ent) => jget(ent, "env"@),
        None => None,
    }
}

/// The environment an install stores: with no override, whatever was
/// stored before (an empty object where nothing was); with an override,
/// the stored object merged with it, the override winning per key.
pub open spec fn merged_env(
    servers: Seq<(Seq<char>, JVal)>,
    key: Seq<char>,
    over: Option<JVal>,
) -> JVal {
    let ex = existing_env_of(servers, key);
    match over {
        None => match ex {
            Some(v) => v,
            None => JVal::Obj(Seq::empty()),
        },
        Some(o) => JVal::Obj(
            merge_fields(obj_fields_or_empty(ex), obj_fields_or_empty(Some(o))),
        ),
    }
}

/// The document after installing one integration: its entry under the
/// integration's key inside `mcpServers`, every other part untouched. An
/// error exactly when the document has no `mcpServers` object.
pub open spec fn apply_install_spec(
    doc: JVal,
    cfg: (Seq<char>, Seq<char>, Seq<Seq<char>>),
    over: Option<JVal>,
) -> Result<JVal, Seq<char>> {
    match jget(doc, "mcpServers"@) {
        Some(JVal::Obj(servers)) => {
            let env = merged_env(servers, cfg.0, over);
            Ok(
                jset(
                    doc,
                    "mcpServers"@,
                    JVal::Obj(crate::json::oset(servers, cfg.0, install_entry(cfg, env))),
                ),
            )
        },
        _ => Err("Failed to find mcpServers in config"@),
    }
}

/// Install one integration into a document: write its resolved command,
/// substituted arguments and merged environment under its key.
pub fn apply_install(doc: JsonValue, cfg: &AppConfig, env_vars: Option<&JsonValue>) -> (r: Result<
    JsonValue,
    String,
>)
    ensures
        match apply_install_spec(
            jval_at(doc),
            cfg@,
            match env_vars {
                Some(o) => Some(jval_at(*o)),
                None => None,
            },
        ) {
            Ok(d) => r matches Ok(nd) && jval_at(nd) == d,
            Err(m) => r matches Err(mm) && mm@ == m,
        },
{
    let ghost docv = jval_at(doc);
    let (servers_clone, existing_env): (JsonValue, Option<JsonValue>) = match doc.obj_get(
        "mcpServers",
    ) {
        Some(sv) => {
            if !sv.is_object() {
                return Err("Failed to find mcpServers in config".to_owned());
            }
            let existing: Option<JsonValue> = match sv.obj_get(cfg.mcp_key.as_str()) {
                Some(ent) => match ent.obj_get("env") {
                    Some(e) => Some(e.deep_clone()),
                    None => None,
                },
                None => None,
            };
            (sv.deep_clone(), existing)
        },
        None => {
            return Err("Failed to find mcpServers in config".to_owned());
        },
    };
    let ghost serversv = (match jget(docv, "mcpServers"@) {
        Some(JVal::Obj(fs)) => fs,
        _ => Seq::empty(),
    });
    let ghost exg = existing_env;
    proof {
        assert(jval_at(servers_clone) == JVal::Obj(serversv));
        match exg {
            Some(e) => {
                assert(existing_env_of(serversv, cfg.mcp_key@) == Some(jval_at(e)));
            },
            None => {
                assert(existing_env_of(serversv, cfg.mcp_key@) is None);
            },
        }
    }
    let env_value: JsonValue = match env_vars {
        None => match existing_env {
            Some(v) => v,
            None => JsonValue::empty_object(),
        },
        Some(o) => {
            match existing_env {
                Some(v) => merge_objects(&v, o),
                None => {
                    let none_base = JsonValue::Null;
                    merge_objects(&none_base, o)
                },
            }
        },
    };
    let ghost envv = jval_at(env_value);
    proof {
        assert(envv == merged_env(
            serversv,
            cfg.mcp_key@,
            match env_vars {
                Some(o) => Some(jval_at(*o)),
                None => None,
            },
        ));
        lemma_subst_args(cfg@.2, envv);
    }
    let mut new_args: Vec<JsonValue> = Vec::new();
    let mut i: usize = 0;
    while i < cfg.args.len()
        invariant
            0 <= i <= cfg.args@.len(),
            new_args@.len() == i,
            envv == jval_at(env_value),
            forall|j: int| 0 <= j < i ==> jval_at(new_args@[j]) == JVal::Str(
                crate::template::spec_subst(cfg.args@[j]@, envv),
            ),
        decreases cfg.args@.len() - i,
    {
        let sub = crate::template::substitute(cfg.args[i].as_str(), &env_value);
        new_args.push(JsonValue::Str(sub));
        i += 1;
    }
    proof {
        crate::json::lemma_jvals_of(new_args@);
        assert forall|j: int| 0 <= j < cfg.args@.len() implies cfg@.2[j] == cfg.args@[j]@ by {}
        assert(crate::json::jvals_of(new_args@) =~= subst_args(cfg@.2, envv));
    }
    proof {
        reveal_strlit("command");
        reveal_strlit("args");
        reveal_strlit("env");
        assert("command"@.len() == 7);
        assert("args"@.len() == 4);
        assert("env"@.len() == 3);
    }
    let e0 = JsonValue::empty_object();
    proof {
        crate::json::lemma_oset_absent(
            Seq::empty(),
            "command"@,
            JVal::Str(cfg.command@),
        );
    }
    let e1 = e0.obj_set("command", JsonValue::Str(cfg.command.clone()));
    let ghost e1f = seq![("command"@, JVal::Str(cfg.command@))];
    proof {
        assert(jval_at(e1) == JVal::Obj(e1f));
        crate::json::lemma_oset_absent(e1f, "args"@, JVal::Arr(subst_args(cfg@.2, envv)));
    }
    let e2 = e1.obj_set("args", JsonValue::Arr(new_args));
    let ghost e2f = e1f.push(("args"@, JVal::Arr(subst_args(cfg@.2, envv))));
    proof {
        assert(jval_at(e2) == JVal::Obj(e2f));
        crate::json::lemma_oset_absent(e2f, "env"@, envv);
    }
    let entry = e2.obj_set("env", env_value);
    let ghost entryf = e2f.push(("env"@, envv));
    proof {
        assert(jval_at(entry) == JVal::Obj(entryf));
        assert(entryf =~= seq![
            ("command"@, JVal::Str(cfg@.1)),
            ("args"@, JVal::Arr(subst_args(cfg@.2, envv))),
            ("env"@, envv),
        ]);
        assert(jval_at(entry) == install_entry(cfg@, envv));
    }
    let new_servers = servers_clone.obj_set(cfg.mcp_key.as_str(), entry);
    let new_doc = doc.obj_set("mcpServers", new_servers);
    Ok(new_doc)
}


/// The first catalog entry with the given name, if any.
pub open spec fn catalog_find(
    cat: Seq<(Seq<char>, (Seq<char>, Seq<char>, Seq<Seq<char>>))>,
    name: Seq<char>,
) -> Option<(Seq<char>, Seq<char>, Seq<Seq<char>>)>
    decreases cat,
{
    if cat.len() == 0 {
        None
    } else if cat[0].0 == name {
        Some(cat[0].1)
    } else {
        catalog_find(cat.subrange(1, cat.len() as int), name)
    }
}

/// Skipping catalog entries with other names leaves the lookup unchanged.
pub proof fn lemma_catalog_find_skip(
    cat: Seq<(Seq<char>, (Seq<char>, Seq<char>, Seq<Seq<char>>))>,
    name: Seq<char>,
    i: int,
)
    requires
        0 <= i <= cat.len(),
        forall|j: int| 0 <= j < i ==> cat[j].0 != name,
    ensures
        catalog_find(cat, name) == catalog_find(cat.subrange(i, cat.len() as int), name),
    decreases i,
{
    if i == 0 {
        assert(cat.subrange(0, cat.len() as int) =~= cat);
    } else {
        lemma_catalog_find_skip(cat, name, i - 1);
        let tail = cat.subrange(i - 1, cat.len() as int);
        assert(tail[0] == cat[i - 1]);
        assert(cat[i - 1].0 != name);
        assert(tail.subrange(1, tail.len() as int) =~= cat.subrange(i, cat.len() as int));
        assert(catalog_find(tail, name) == catalog_find(
            tail.subrange(1, tail.len() as int),
            name,
        ));
    }
}

/// The first resolved catalog entry with the given name.
fn find_app<'a>(cfgs: &'a Vec<(String, AppConfig)>, name: &str) -> (r: Option<&'a AppConfig>)
    ensures
        match r {
            Some(c) => catalog_find(cfg_views(cfgs@), name@) == Some(c@),
            None => catalog_find(cfg_views(cfgs@), name@) is None,
        },
{
    proof {
        lemma_cfg_views(cfgs@);
    }
    let mut i: usize = 0;
    while i < cfgs.len()
        invariant
            0 <= i <= cfgs@.len(),
            cfg_views(cfgs@).len() == cfgs@.len(),
            forall|j: int| 0 <= j < cfgs@.len() ==> cfg_views(cfgs@)[j] == (
                cfgs@[j].0@,
                cfgs@[j].1@,
            ),
            forall|j: int| 0 <= j < i ==> cfgs@[j].0@ != name@,
        decreases cfgs@.len() - i,
    {
        if crate::json::str_eq(cfgs[i].0.as_str(), name) {
            proof {
                lemma_catalog_find_skip(cfg_views(cfgs@), name@, i as int);
                let tail = cfg_views(cfgs@).subrange(i as int, cfgs@.len() as int);
                assert(tail[0] == cfg_views(cfgs@)[i as int]);
            }
            return Some(&cfgs[i].1);
        }
        i += 1;
    }
    proof {
        lemma_catalog_find_skip(cfg_views(cfgs@), name@, cfgs@.len() as int);
        assert(cfg_views(cfgs@).subrange(cfgs@.len() as int, cfgs@.len() as int) =~= Seq::<
            (Seq<char>, (Seq<char>, Seq<char>, Seq<Seq<char>>)),
        >::empty());
    }
    None
}

/// The document after removing one integration's entry, and whether one
/// was there to remove: the entry under the key is dropped from
/// `mcpServers`, everything else stays.
pub fn apply_uninstall(doc: JsonValue, key: &str) -> (r: Result<(JsonValue, bool), String>)
    ensures
        match jget(jval_at(doc), "mcpServers"@) {
            Some(JVal::Obj(servers)) => r matches Ok(p) && p.1 == crate::json::ohas(
                servers,
                key@,
            ) && (if crate::json::ohas(servers, key@) {
                jval_at(p.0) == jset(
                    jval_at(doc),
                    "mcpServers"@,
                    JVal::Obj(crate::json::oremove(servers, key@)),
                )
            } else {
                jval_at(p.0) == jval_at(doc)
            }),
            _ => r matches Err(m) && m@ == "Failed to find mcpServers in config"@,
        },
{
    let (present, servers_clone): (bool, JsonValue) = match doc.obj_get("mcpServers") {
        Some(sv) => {
            if !sv.is_object() {
                return Err("Failed to find mcpServers in config".to_owned());
            }
            (sv.obj_has(key), sv.deep_clone())
        },
        None => {
            return Err("Failed to find mcpServers in config".to_owned());
        },
    };
    if !present {
        return Ok((doc, false));
    }
    let (new_servers, removed) = servers_clone.obj_remove(key);
    let new_doc = doc.obj_set("mcpServers", new_servers);
    Ok((new_doc, removed))
}

/// Register an integration for a client: resolve it in the catalog,
/// substitute its arguments from the merged environment, write its entry
/// into the client's document and persist it. An unknown integration name
/// is reported as a plain message, not an error; an unknown client, an
/// unprovisioned environment, an unfetched catalog and an unloaded
/// document are errors. On success the returned path and content are what
/// the caller must write to disk. A repeated identical call succeeds again
/// and leaves the document exactly as the first call wrote it: the new
/// entry equals the old one (`law_install_idempotent`), and the path stays
/// resolvable — the override or the table entry recorded below survives,
/// since a non-empty table is never reseeded.
pub fn install(ctx: &mut AppContext, app_name: &str, env_vars: Option<&JsonValue>, client: &str) -> (r:
    Result<(String, Option<(String, String)>), String>)
    ensures
        !clients::reg_is_empty(old(ctx).clients) ==> final(ctx).clients == old(ctx).clients,
        final(ctx).env == old(ctx).env,
        final(ctx).test_config_path == old(ctx).test_config_path,
        final(ctx).registry_cache == old(ctx).registry_cache,
        clients::client_of_name(client@) is None ==> *final(ctx) == *old(ctx) && (
        r matches Err(m) && m@ == "Invalid client: "@ + client@),
        clients::client_of_name(client@) is Some && !(old(ctx).env.test_mode || old(
            ctx,
        ).env.setup_completed) ==> *final(ctx) == *old(ctx) && r is Err,
        ({
            &&& clients::client_of_name(client@) matches Some(ct)
            &&& (old(ctx).env.test_mode || old(ctx).env.setup_completed)
            &&& spec_tool_paths(old(ctx).env) matches Some(paths)
            &&& old(ctx).registry_cache matches Some(reg)
            &&& spec_catalog(jval_at(reg), paths.0, paths.1) matches Ok(cat)
        }) ==> ({
            let ct = clients::client_of_name(client@)->0;
            let paths = spec_tool_paths(old(ctx).env)->0;
            let cat = spec_catalog(
                jval_at(old(ctx).registry_cache->0),
                paths.0,
                paths.1,
            )->Ok_0;
            match catalog_find(cat, app_name@) {
                None => r matches Ok(p) && (p.0@ == "No configuration available for: "@
                    + app_name@) && p.1 is None && final(ctx).config_cache == old(
                    ctx,
                ).config_cache,
                Some(cfg) => match cache_view(old(ctx).config_cache, ct) {
                    None => r is Err && final(ctx).config_cache == old(ctx).config_cache,
                    Some(d) => match apply_install_spec(
                        d,
                        cfg,
                        match env_vars {
                            Some(o) => Some(jval_at(*o)),
                            None => None,
                        },
                    ) {
                        Ok(nd) => match r {
                            Ok(p) => (p.0@ == "Added "@ + cfg.0 + " configuration for "@
                                + app_name@) && (p.1 matches Some(w) && w.1@ == spec_render(
                                nd,
                                Seq::<char>::empty(),
                            )) && cache_view(final(ctx).config_cache, ct) == Some(nd) && (
                            old(ctx).test_config_path is Some || reg_entry(
                                final(ctx).clients,
                                ct,
                            ) is Some) && (forall|c: ClientType|
                                c != ct ==> cache_view(final(ctx).config_cache, c) == cache_view(
                                    old(ctx).config_cache,
                                    c,
                                )),
                            Err(_) => old(ctx).test_config_path is None && reg_entry(
                                final(ctx).clients,
                                ct,
                            ) is None && final(ctx).config_cache == old(ctx).config_cache,
                        },
                        Err(m) => r matches Err(mm) && mm@ == m && final(ctx).config_cache == old(
                            ctx,
                        ).config_cache,
                    },
                },
            }
        }),
{
    let client_type = match ClientType::from_str(client) {
        Some(ct) => ct,
        None => {
            return Err("Invalid client: ".to_owned().concat(client));
        },
    };
    match ensure_env_setup(ctx, None) {
        Ok(_) => {},
        Err(e) => {
            return Err(e);
        },
    }
    let configs = match get_app_configs(ctx) {
        Ok(c) => c,
        Err(e) => {
            return Err(e);
        },
    };
    let cfg: &AppConfig = match find_app(&configs, app_name) {
        Some(c) => c,
        None => {
            return Ok(
                ("No configuration available for: ".to_owned().concat(app_name), None),
            );
        },
    };
    let doc = match get_config(ctx, &client_type, None) {
        Ok(d) => d,
        Err(e) => {
            return Err(e);
        },
    };
    let new_doc = match apply_install(doc, cfg, env_vars) {
        Ok(d) => d,
        Err(e) => {
            return Err(e);
        },
    };
    let (path, content) = match save_config(ctx, &new_doc, &client_type) {
        Ok(pc) => pc,
        Err(e) => {
            return Err(e);
        },
    };
    let msg = "Added ".to_owned().concat(cfg.mcp_key.as_str()).concat(
        " configuration for ",
    ).concat(app_name);
    Ok((msg, Some((path, content))))
}

/// Remove an integration from a client's document. An integration that is
/// not in the catalog, and one that is not in the document, are reported
/// as plain messages and leave the document exactly as it was; only a
/// removal that found the entry persists a new document.
pub fn uninstall(ctx: &mut AppContext, app_name: &str, client: &str) -> (r: Result<
    (String, Option<(String, String)>),
    String,
>)
    ensures
        !clients::reg_is_empty(old(ctx).clients) ==> final(ctx).clients == old(ctx).clients,
        final(ctx).env == old(ctx).env,
        final(ctx).test_config_path == old(ctx).test_config_path,
        final(ctx).registry_cache == old(ctx).registry_cache,
        clients::client_of_name(client@) is None ==> *final(ctx) == *old(ctx) && (
        r matches Err(m) && m@ == "Invalid client: "@ + client@),
        ({
            &&& clients::client_of_name(client@) matches Some(ct)
            &&& spec_tool_paths(old(ctx).env) matches Some(paths)
            &&& old(ctx).registry_cache matches Some(reg)
            &&& spec_catalog(jval_at(reg), paths.0, paths.1) matches Ok(cat)
        }) ==> ({
            let ct = clients::client_of_name(client@)->0;
            let paths = spec_tool_paths(old(ctx).env)->0;
            let cat = spec_catalog(
                jval_at(old(ctx).registry_cache->0),
                paths.0,
                paths.1,
            )->Ok_0;
            match catalog_find(cat, app_name@) {
                None => r matches Ok(p) && (p.0@ == "No configuration available for "@
                    + app_name@) && p.1 is None && final(ctx).config_cache == old(
                    ctx,
                ).config_cache,
                Some(cfg) => match cache_view(old(ctx).config_cache, ct) {
                    None => r is Err && final(ctx).config_cache == old(ctx).config_cache,
                    Some(d) => match jget(d, "mcpServers"@) {
                        Some(JVal::Obj(servers)) => if crate::json::ohas(servers, cfg.0) {
                            let nd = jset(
                                d,
                                "mcpServers"@,
                                JVal::Obj(crate::json::oremove(servers, cfg.0)),
                            );
                            match r {
                                Ok(p) => (p.0@ == "Removed "@ + cfg.0 + " configuration for "@
                                    + app_name@) && (p.1 matches Some(w) && w.1@ == spec_render(
                                    nd,
                                    Seq::<char>::empty(),
                                )) && cache_view(final(ctx).config_cache, ct) == Some(nd) && (
                                old(ctx).test_config_path is Some || reg_entry(
                                    final(ctx).clients,
                                    ct,
                                ) is Some) && (forall|c: ClientType|
                                    c != ct ==> cache_view(final(ctx).config_cache, c)
                                        == cache_view(old(ctx).config_cache, c)),
                                Err(_) => old(ctx).test_config_path is None && reg_entry(
                                    final(ctx).clients,
                                    ct,
                                ) is None && final(ctx).config_cache == old(ctx).config_cache,
                            }
                        } else {
                            r matches Ok(p) && (p.0@ == "Configuration for "@ + app_name@
                                + " was not found"@) && p.1 is None && final(ctx).config_cache
                                == old(ctx).config_cache
                        },
                        _ => r matches Err(m) && m@ == "Failed to find mcpServers in config"@
                            && final(ctx).config_cache == old(ctx).config_cache,
                    },
                },
            }
        }),
{
    let client_type = match ClientType::from_str(client) {
        Some(ct) => ct,
        None => {
            return Err("Invalid client: ".to_owned().concat(client));
        },
    };
    let configs = match get_app_configs(ctx) {
        Ok(c) => c,
        Err(e) => {
            return Err(e);
        },
    };
    let cfg: &AppConfig = match find_app(&configs, app_name) {
        Some(c) => c,
        None => {
            return Ok(
                ("No configuration available for ".to_owned().concat(app_name), None),
            );
        },
    };
    let doc = match get_config(ctx, &client_type, None) {
        Ok(d) => d,
        Err(e) => {
            return Err(e);
        },
    };
    let (new_doc, removed) = match apply_uninstall(doc, cfg.mcp_key.as_str()) {
        Ok(p) => p,
        Err(e) => {
            return Err(e);
        },
    };
    if removed {
        let (path, content) = match save_config(ctx, &new_doc, &client_type) {
            Ok(pc) => pc,
            Err(e) => {
                return Err(e);
            },
        };
        let msg = "Removed ".to_owned().concat(cfg.mcp_key.as_str()).concat(
            " configuration for ",
        ).concat(app_name);
        Ok((msg, Some((path, content))))
    } else {
        let msg = "Configuration for ".to_owned().concat(app_name).concat(" was not found");
        Ok((msg, None))
    }
}

/// Whether an integration is installed for a client: it resolves in the
/// catalog and its key stands in the client document's `mcpServers`.
pub fn is_installed(ctx: &mut AppContext, app_name: &str, client: &str) -> (r: Result<
    bool,
    String,
>)
    ensures
        *final(ctx) == *old(ctx),
        clients::client_of_name(client@) is None ==> (r matches Err(m) && m@
            == "Invalid client: "@ + client@),
        ({
            &&& clients::client_of_name(client@) matches Some(ct)
            &&& spec_tool_paths(old(ctx).env) matches Some(paths)
            &&& old(ctx).registry_cache matches Some(reg)
            &&& spec_catalog(jval_at(reg), paths.0, paths.1) matches Ok(cat)
        }) ==> ({
            let ct = clients::client_of_name(client@)->0;
            let paths = spec_tool_paths(old(ctx).env)->0;
            let cat = spec_catalog(
                jval_at(old(ctx).registry_cache->0),
                paths.0,
                paths.1,
            )->Ok_0;
            match catalog_find(cat, app_name@) {
                None => r matches Ok(b) && !b,
                Some(cfg) => match cache_view(old(ctx).config_cache, ct) {
                    None => r is Err,
                    Some(d) => r matches Ok(b) && b == (match jget(d, "mcpServers"@) {
                        Some(JVal::Obj(servers)) => crate::json::ohas(servers, cfg.0),
                        _ => false,
                    }),
                },
            }
        }),
{
    let client_type = match ClientType::from_str(client) {
        Some(ct) => ct,
        None => {
            return Err("Invalid client: ".to_owned().concat(client));
        },
    };
    let configs = match get_app_configs(ctx) {
        Ok(c) => c,
        Err(e) => {
            return Err(e);
        },
    };
    let cfg: &AppConfig = match find_app(&configs, app_name) {
        Some(c) => c,
        None => {
            return Ok(false);
        },
    };
    let doc = match get_config(ctx, &client_type, None) {
        Ok(d) => d,
        Err(e) => {
            return Err(e);
        },
    };
    match doc.obj_get("mcpServers") {
        Some(sv) => {
            if sv.is_object() {
                Ok(sv.obj_has(cfg.mcp_key.as_str()))
            } else {
                Ok(false)
            }
        },
        None => Ok(false),
    }
}


/// The document after storing environment values for an installed
/// integration: the values merged into the entry's environment object, the
/// values winning per key. The integration's entry must exist and be an
/// object, with an object (or no) environment; the values must be an
/// object.
pub open spec fn apply_save_env_spec(
    doc: JVal,
    key: Seq<char>,
    name: Seq<char>,
    values: JVal,
) -> Result<JVal, Seq<char>> {
    match jget(doc, "mcpServers"@) {
        Some(JVal::Obj(servers)) => match crate::json::oget(servers, key) {
            Some(JVal::Obj(entry)) => {
                let envf = match crate::json::oget(entry, "env"@) {
                    Some(JVal::Obj(f)) => Some(f),
                    Some(_) => None,
                    None => Some(Seq::empty()),
                };
                match envf {
                    Some(ef) => match values {
                        JVal::Obj(vf) => Ok(
                            jset(
                                doc,
                                "mcpServers"@,
                                JVal::Obj(
                                    crate::json::oset(
                                        servers,
                                        key,
                                        JVal::Obj(
                                            crate::json::oset(
                                                entry,
                                                "env"@,
                                                JVal::Obj(merge_fields(ef, vf)),
                                            ),
                                        ),
                                    ),
                                ),
                            ),
                        ),
                        _ => Err("Invalid env_values format"@),
                    },
                    None => Err("App '"@ + name + "' is not installed"@),
                }
            },
            _ => Err("App '"@ + name + "' is not installed"@),
        },
        _ => Err("Failed to find mcpServers in config"@),
    }
}

/// Merge environment values into an installed integration's entry.
pub fn apply_save_env(doc: JsonValue, key: &str, name: &str, values: &JsonValue) -> (r: Result<
    JsonValue,
    String,
>)
    ensures
        match apply_save_env_spec(jval_at(doc), key@, name@, jval_at(*values)) {
            Ok(d) => r matches Ok(nd) && jval_at(nd) == d,
            Err(m) => r matches Err(mm) && mm@ == m,
        },
{
    let (servers_clone, entry_clone, env_field): (JsonValue, JsonValue, Option<JsonValue>) =
        match doc.obj_get("mcpServers") {
        Some(sv) => {
            if !sv.is_object() {
                return Err("Failed to find mcpServers in config".to_owned());
            }
            match sv.obj_get(key) {
                Some(ent) => {
                    if !ent.is_object() {
                        return Err(
                            "App '".to_owned().concat(name).concat("' is not installed"),
                        );
                    }
                    let envf = match ent.obj_get("env") {
                        Some(e) => Some(e.deep_clone()),
                        None => None,
                    };
                    (sv.deep_clone(), ent.deep_clone(), envf)
                },
                None => {
                    return Err("App '".to_owned().concat(name).concat("' is not installed"));
                },
            }
        },
        None => {
            return Err("Failed to find mcpServers in config".to_owned());
        },
    };
    if !values.is_object() {
        match &env_field {
            Some(e) => {
                if !e.is_object() {
                    return Err("App '".to_owned().concat(name).concat("' is not installed"));
                }
            },
            None => {},
        }
        return Err("Invalid env_values format".to_owned());
    }
    let merged: JsonValue = match env_field {
        Some(e) => {
            if !e.is_object() {
                return Err("App '".to_owned().concat(name).concat("' is not installed"));
            }
            merge_objects(&e, values)
        },
        None => {
            let empty = JsonValue::empty_object();
            merge_objects(&empty, values)
        },
    };
    let new_entry = entry_clone.obj_set("env", merged);
    let new_servers = servers_clone.obj_set(key, new_entry);
    let new_doc = doc.obj_set("mcpServers", new_servers);
    Ok(new_doc)
}

/// Store environment values for an installed integration and persist the
/// document. The caller writes the returned path and content.
pub fn save_app_env(ctx: &mut AppContext, app_name: &str, env_values: &JsonValue, client: &str) -> (r:
    Result<(String, Option<(String, String)>), String>)
    ensures
        !clients::reg_is_empty(old(ctx).clients) ==> final(ctx).clients == old(ctx).clients,
        final(ctx).env == old(ctx).env,
        final(ctx).test_config_path == old(ctx).test_config_path,
        final(ctx).registry_cache == old(ctx).registry_cache,
        clients::client_of_name(client@) is None ==> *final(ctx) == *old(ctx) && (
        r matches Err(m) && m@ == "Invalid client: "@ + client@),
        ({
            &&& clients::client_of_name(client@) matches Some(ct)
            &&& (old(ctx).env.test_mode || old(ctx).env.setup_completed)
            &&& spec_tool_paths(old(ctx).env) matches Some(paths)
            &&& old(ctx).registry_cache matches Some(reg)
            &&& spec_catalog(jval_at(reg), paths.0, paths.1) matches Ok(cat)
        }) ==> ({
            let ct = clients::client_of_name(client@)->0;
            let paths = spec_tool_paths(old(ctx).env)->0;
            let cat = spec_catalog(
                jval_at(old(ctx).registry_cache->0),
                paths.0,
                paths.1,
            )->Ok_0;
            match catalog_find(cat, app_name@) {
                None => r matches Err(m) && (m@ == "No configuration available for '"@
                    + app_name@ + "'"@) && final(ctx).config_cache == old(ctx).config_cache,
                Some(cfg) => match cache_view(old(ctx).config_cache, ct) {
                    None => r is Err && final(ctx).config_cache == old(ctx).config_cache,
                    Some(d) => match apply_save_env_spec(
                        d,
                        cfg.0,
                        app_name@,
                        jval_at(*env_values),
                    ) {
                        Ok(nd) => match r {
                            Ok(p) => (p.0@ == "Saved ENV values for app '"@ + app_name@ + "'"@)
                                && (p.1 matches Some(w) && w.1@ == spec_render(
                                nd,
                                Seq::<char>::empty(),
                            )) && cache_view(final(ctx).config_cache, ct) == Some(nd) && (
                            old(ctx).test_config_path is Some || reg_entry(
                                final(ctx).clients,
                                ct,
                            ) is Some) && (forall|c: ClientType|
                                c != ct ==> cache_view(final(ctx).config_cache, c) == cache_view(
                                    old(ctx).config_cache,
                                    c,
                                )),
                            Err(_) => old(ctx).test_config_path is None && reg_entry(
                                final(ctx).clients,
                                ct,
                            ) is None && final(ctx).config_cache == old(ctx).config_cache,
                        },
                        Err(m) => r matches Err(mm) && mm@ == m && final(ctx).config_cache == old(
                            ctx,
                        ).config_cache,
                    },
                },
            }
        }),
{
    let client_type = match ClientType::from_str(client) {
        Some(ct) => ct,
        None => {
            return Err("Invalid client: ".to_owned().concat(client));
        },
    };
    match ensure_env_setup(ctx, None) {
        Ok(_) => {},
        Err(e) => {
            return Err(e);
        },
    }
    let configs = match get_app_configs(ctx) {
        Ok(c) => c,
        Err(e) => {
            return Err(e);
        },
    };
    let cfg: &AppConfig = match find_app(&configs, app_name) {
        Some(c) => c,
        None => {
            return Err(
                "No configuration available for '".to_owned().concat(app_name).concat("'"),
            );
        },
    };
    let doc = match get_config(ctx, &client_type, None) {
        Ok(d) => d,
        Err(e) => {
            return Err(e);
        },
    };
    let new_doc = match apply_save_env(doc, cfg.mcp_key.as_str(), app_name, env_values) {
        Ok(d) => d,
        Err(e) => {
            return Err(e);
        },
    };
    let (path, content) = match save_config(ctx, &new_doc, &client_type) {
        Ok(pc) => pc,
        Err(e) => {
            return Err(e);
        },
    };
    let msg = "Saved ENV values for app '".to_owned().concat(app_name).concat("'");
    Ok((msg, Some((path, content))))
}

/// The environment stored for an installed integration: the entry's
/// environment value as it stands, or an empty object where the entry has
/// none.
pub open spec fn get_env_spec(doc: JVal, key: Seq<char>, name: Seq<char>) -> Result<
    JVal,
    Seq<char>,
> {
    match jget(doc, "mcpServers"@) {
        Some(JVal::Obj(servers)) => match crate::json::oget(servers, key) {
            Some(JVal::Obj(entry)) => match crate::json::oget(entry, "env"@) {
                Some(e) => Ok(e),
                None => Ok(JVal::Obj(Seq::empty())),
            },
            _ => Err("App '"@ + name + "' is not installed"@),
        },
        _ => Err("Failed to find mcpServers in config"@),
    }
}

/// Read the environment values stored for an installed integration.
pub fn get_app_env(ctx: &mut AppContext, app_name: &str, client: &str) -> (r: Result<
    JsonValue,
    String,
>)
    ensures
        *final(ctx) == *old(ctx),
        clients::client_of_name(client@) is None ==> (r matches Err(m) && m@
            == "Invalid client: "@ + client@),
        ({
            &&& clients::client_of_name(client@) matches Some(ct)
            &&& spec_tool_paths(old(ctx).env) matches Some(paths)
            &&& old(ctx).registry_cache matches Some(reg)
            &&& spec_catalog(jval_at(reg), paths.0, paths.1) matches Ok(cat)
        }) ==> ({
            let ct = clients::client_of_name(client@)->0;
            let paths = spec_tool_paths(old(ctx).env)->0;
            let cat = spec_catalog(
                jval_at(old(ctx).registry_cache->0),
                paths.0,
                paths.1,
            )->Ok_0;
            match catalog_find(cat, app_name@) {
                None => r matches Err(m) && (m@ == "No configuration available for '"@
                    + app_name@ + "'"@),
                Some(cfg) => match cache_view(old(ctx).config_cache, ct) {
                    None => r is Err,
                    Some(d) => match get_env_spec(d, cfg.0, app_name@) {
                        Ok(e) => r matches Ok(v) && jval_at(v) == e,
                        Err(m) => r matches Err(mm) && mm@ == m,
                    },
                },
            }
        }),
{
    let client_type = match ClientType::from_str(client) {
        Some(ct) => ct,
        None => {
            return Err("Invalid client: ".to_owned().concat(client));
        },
    };
    let configs = match get_app_configs(ctx) {
        Ok(c) => c,
        Err(e) => {
            return Err(e);
        },
    };
    let cfg: &AppConfig = match find_app(&configs, app_name) {
        Some(c) => c,
        None => {
            return Err(
                "No configuration available for '".to_owned().concat(app_name).concat("'"),
            );
        },
    };
    let doc = match get_config(ctx, &client_type, None) {
        Ok(d) => d,
        Err(e) => {
            return Err(e);
        },
    };
    match doc.obj_get("mcpServers") {
        Some(sv) => {
            if !sv.is_object() {
                return Err("Failed to find mcpServers in config".to_owned());
            }
            match sv.obj_get(cfg.mcp_key.as_str()) {
                Some(ent) => {
                    if !ent.is_object() {
                        return Err(
                            "App '".to_owned().concat(app_name).concat("' is not installed"),
                        );
                    }
                    match ent.obj_get("env") {
                        Some(e) => Ok(e.deep_clone()),
                        None => Ok(JsonValue::empty_object()),
                    }
                },
                None => Err("App '".to_owned().concat(app_name).concat("' is not installed")),
            }
        },
        None => Err("Failed to find mcpServers in config".to_owned()),
    }
}


/// For each catalog entry, whether its key stands in the `mcpServers`
/// object.
pub open spec fn installed_fields(
    cat: Seq<(Seq<char>, (Seq<char>, Seq<char>, Seq<Seq<char>>))>,
    servers: Seq<(Seq<char>, JVal)>,
) -> Seq<(Seq<char>, JVal)>
    decreases cat,
{
    if cat.len() == 0 {
        Seq::empty()
    } else {
        seq![(cat[0].0, JVal::Bool(crate::json::ohas(servers, cat[0].1.0)))] + installed_fields(
            cat.subrange(1, cat.len() as int),
            servers,
        )
    }
}

/// For each catalog entry, whether its resolved command is non-empty.
pub open spec fn configured_fields(
    cat: Seq<(Seq<char>, (Seq<char>, Seq<char>, Seq<Seq<char>>))>,
) -> Seq<(Seq<char>, JVal)>
    decreases cat,
{
    if cat.len() == 0 {
        Seq::empty()
    } else {
        seq![(cat[0].0, JVal::Bool(cat[0].1.1.len() != 0))] + configured_fields(
            cat.subrange(1, cat.len() as int),
        )
    }
}

/// The status report: one `installed` and one `configured` map over the
/// catalog, both empty when the document has no `mcpServers` object.
pub open spec fn statuses_spec(
    doc: JVal,
    cat: Seq<(Seq<char>, (Seq<char>, Seq<char>, Seq<Seq<char>>))>,
) -> JVal {
    match jget(doc, "mcpServers"@) {
        Some(JVal::Obj(servers)) => JVal::Obj(
            seq![
                ("installed"@, JVal::Obj(installed_fields(cat, servers))),
                ("configured"@, JVal::Obj(configured_fields(cat))),
            ],
        ),
        _ => JVal::Obj(
            seq![
                ("installed"@, JVal::Obj(Seq::empty())),
                ("configured"@, JVal::Obj(Seq::empty())),
            ],
        ),
    }
}

/// The status report with no catalog: both maps empty.
pub open spec fn empty_statuses() -> JVal {
    JVal::Obj(
        seq![
            ("installed"@, JVal::Obj(Seq::empty())),
            ("configured"@, JVal::Obj(Seq::empty())),
        ],
    )
}

/// Pointwise description of the installed map.
pub proof fn lemma_installed_fields(
    cat: Seq<(Seq<char>, (Seq<char>, Seq<char>, Seq<Seq<char>>))>,
    servers: Seq<(Seq<char>, JVal)>,
)
    ensures
        installed_fields(cat, servers).len() == cat.len(),
        forall|i: int| 0 <= i < cat.len() ==> installed_fields(cat, servers)[i] == (
            cat[i].0,
            JVal::Bool(crate::json::ohas(servers, cat[i].1.0)),
        ),
    decreases cat,
{
    if cat.len() > 0 {
        lemma_installed_fields(cat.subrange(1, cat.len() as int), servers);
        assert forall|i: int| 0 <= i < cat.len() implies installed_fields(cat, servers)[i] == (
        cat[i].0,
        JVal::Bool(crate::json::ohas(servers, cat[i].1.0)),
        ) by {
            if i > 0 {
                assert(cat.subrange(1, cat.len() as int)[i - 1] == cat[i]);
            }
        }
    }
}

/// Pointwise description of the configured map.
pub proof fn lemma_configured_fields(
    cat: Seq<(Seq<char>, (Seq<char>, Seq<char>, Seq<Seq<char>>))>,
)
    ensures
        configured_fields(cat).len() == cat.len(),
        forall|i: int| 0 <= i < cat.len() ==> configured_fields(cat)[i] == (
            cat[i].0,
            JVal::Bool(cat[i].1.1.len() != 0),
        ),
    decreases cat,
{
    if cat.len() > 0 {
        lemma_configured_fields(cat.subrange(1, cat.len() as int));
        assert forall|i: int| 0 <= i < cat.len() implies configured_fields(cat)[i] == (
        cat[i].0,
        JVal::Bool(cat[i].1.1.len() != 0),
        ) by {
            if i > 0 {
                assert(cat.subrange(1, cat.len() as int)[i - 1] == cat[i]);
            }
        }
    }
}

/// The status view over every catalog entry: which integrations are
/// installed in the client's document, and which have a usable command.
/// When the catalog cannot be resolved the view degrades to two empty
/// maps rather than failing.
pub fn get_app_statuses(ctx: &mut AppContext, client: &str) -> (r: Result<JsonValue, String>)
    ensures
        final(ctx).clients == old(ctx).clients,
        final(ctx).env == old(ctx).env,
        final(ctx).test_config_path == old(ctx).test_config_path,
        final(ctx).registry_cache == old(ctx).registry_cache,
        final(ctx).config_cache == old(ctx).config_cache,
        clients::client_of_name(client@) is None ==> *final(ctx) == *old(ctx) && (
        r matches Err(m) && m@ == "Invalid client: "@ + client@),
        ({
            &&& clients::client_of_name(client@) matches Some(ct)
            &&& (old(ctx).env.test_mode || old(ctx).env.setup_completed)
            &&& cache_view(old(ctx).config_cache, clients::client_of_name(client@)->0)
                matches Some(d)
        }) ==> ({
            let ct = clients::client_of_name(client@)->0;
            let d = cache_view(old(ctx).config_cache, ct)->0;
            match spec_tool_paths(old(ctx).env) {
                Some(paths) => match old(ctx).registry_cache {
                    Some(reg) => match spec_catalog(jval_at(reg), paths.0, paths.1) {
                        Ok(cat) => r matches Ok(v) && jval_at(v) == statuses_spec(d, cat),
                        Err(_) => r matches Ok(v) && jval_at(v) == empty_statuses(),
                    },
                    None => r matches Ok(v) && jval_at(v) == empty_statuses(),
                },
                None => r matches Ok(v) && jval_at(v) == empty_statuses(),
            }
        }),
{
    let client_type = match ClientType::from_str(client) {
        Some(ct) => ct,
        None => {
            return Err("Invalid client: ".to_owned().concat(client));
        },
    };
    match ensure_env_setup(ctx, None) {
        Ok(_) => {},
        Err(e) => {
            return Err(e);
        },
    }
    let doc = match get_config(ctx, &client_type, None) {
        Ok(d) => d,
        Err(e) => {
            return Err(e);
        },
    };
    let configs = match get_app_configs(ctx) {
        Ok(c) => c,
        Err(_) => {
            let inner = JsonValue::empty_object();
            let r0 = JsonValue::empty_object().obj_set("installed", inner);
            proof {
                crate::json::lemma_oset_absent(
                    Seq::empty(),
                    "installed"@,
                    JVal::Obj(Seq::empty()),
                );
            }
            let ghost r0f = seq![("installed"@, JVal::Obj(Seq::<(Seq<char>, JVal)>::empty()))];
            proof {
                assert(jval_at(r0) == JVal::Obj(r0f));
                reveal_strlit("installed");
                reveal_strlit("configured");
                assert("installed"@.len() == 9);
                assert("configured"@.len() == 10);
                crate::json::lemma_oset_absent(
                    r0f,
                    "configured"@,
                    JVal::Obj(Seq::empty()),
                );
            }
            let out = r0.obj_set("configured", JsonValue::empty_object());
            proof {
                assert(jval_at(out) == JVal::Obj(
                    r0f.push(("configured"@, JVal::Obj(Seq::empty()))),
                ));
                assert(r0f.push(("configured"@, JVal::Obj(Seq::empty()))) =~= seq![
                    ("installed"@, JVal::Obj(Seq::<(Seq<char>, JVal)>::empty())),
                    ("configured"@, JVal::Obj(Seq::<(Seq<char>, JVal)>::empty())),
                ]);
            }
            return Ok(out);
        },
    };
    let ghost catv = cfg_views(configs@);
    proof {
        lemma_cfg_views(configs@);
        lemma_installed_fields(catv, Seq::empty());
        lemma_configured_fields(catv);
    }
    let mut inst: Vec<(String, JsonValue)> = Vec::new();
    let mut conf: Vec<(String, JsonValue)> = Vec::new();
    let servers_is_obj: bool = match doc.obj_get("mcpServers") {
        Some(sv) => sv.is_object(),
        None => false,
    };
    if servers_is_obj {
        let ghost serversv = (match jget(jval_at(doc), "mcpServers"@) {
            Some(JVal::Obj(fs)) => fs,
            _ => Seq::empty(),
        });
        proof {
            lemma_installed_fields(catv, serversv);
        }
        let mut i: usize = 0;
        while i < configs.len()
            invariant
                0 <= i <= configs@.len(),
                catv == cfg_views(configs@),
                catv.len() == configs@.len(),
                forall|j: int| 0 <= j < configs@.len() ==> catv[j] == (
                    configs@[j].0@,
                    configs@[j].1@,
                ),
                inst@.len() == i,
                conf@.len() == i,
                jget(jval_at(doc), "mcpServers"@) == Some(JVal::Obj(serversv)),
                installed_fields(catv, serversv).len() == catv.len(),
                configured_fields(catv).len() == catv.len(),
                forall|j: int| 0 <= j < i ==> crate::json::jfields_of(inst@)[j]
                    == installed_fields(catv, serversv)[j],
                forall|j: int| 0 <= j < i ==> crate::json::jfields_of(conf@)[j]
                    == configured_fields(catv)[j],
                forall|j: int| 0 <= j < catv.len() ==> installed_fields(catv, serversv)[j] == (
                    catv[j].0,
                    JVal::Bool(crate::json::ohas(serversv, catv[j].1.0)),
                ),
                forall|j: int| 0 <= j < catv.len() ==> configured_fields(catv)[j] == (
                    catv[j].0,
                    JVal::Bool(catv[j].1.1.len() != 0),
                ),
            decreases configs@.len() - i,
        {
            proof {
                crate::json::lemma_jfields_of(inst@);
                crate::json::lemma_jfields_of(conf@);
            }
            let has: bool = match doc.obj_get("mcpServers") {
                Some(sv) => sv.obj_has(configs[i].1.mcp_key.as_str()),
                None => false,
            };
            let nonempty = configs[i].1.command.unicode_len() != 0;
            let ghost instb = inst@;
            let ghost confb = conf@;
            let ipair = (configs[i].0.clone(), JsonValue::Bool(has));
            let cpair = (configs[i].0.clone(), JsonValue::Bool(nonempty));
            let ghost ipg = ipair;
            let ghost cpg = cpair;
            inst.push(ipair);
            conf.push(cpair);
            proof {
                crate::json::lemma_jfields_of(inst@);
                crate::json::lemma_jfields_of(conf@);
                assert(inst@ == instb.push(ipg));
                assert(conf@ == confb.push(cpg));
                assert(crate::json::jfields_of(inst@)[i as int] == (ipg.0@, jval_at(ipg.1)));
                assert(crate::json::jfields_of(conf@)[i as int] == (cpg.0@, jval_at(cpg.1)));
            }
            i += 1;
        }
        proof {
            crate::json::lemma_jfields_of(inst@);
            crate::json::lemma_jfields_of(conf@);
            assert(crate::json::jfields_of(inst@) =~= installed_fields(catv, serversv));
            assert(crate::json::jfields_of(conf@) =~= configured_fields(catv));
        }
    }
    proof {
        crate::json::lemma_jfields_of(inst@);
        crate::json::lemma_jfields_of(conf@);
        reveal_strlit("installed");
        reveal_strlit("configured");
        assert("installed"@.len() == 9);
        assert("configured"@.len() == 10);
    }
    let ghost instf = crate::json::jfields_of(inst@);
    let ghost conff = crate::json::jfields_of(conf@);
    let r0 = JsonValue::empty_object().obj_set("installed", JsonValue::Obj(inst));
    proof {
        crate::json::lemma_oset_absent(Seq::empty(), "installed"@, JVal::Obj(instf));
    }
    let ghost r0f = seq![("installed"@, JVal::Obj(instf))];
    proof {
        assert(jval_at(r0) == JVal::Obj(r0f));
        crate::json::lemma_oset_absent(r0f, "configured"@, JVal::Obj(conff));
    }
    let out = r0.obj_set("configured", JsonValue::Obj(conf));
    proof {
        assert(jval_at(out) == JVal::Obj(r0f.push(("configured"@, JVal::Obj(conff)))));
        assert(r0f.push(("configured"@, JVal::Obj(conff))) =~= seq![
            ("installed"@, JVal::Obj(instf)),
            ("configured"@, JVal::Obj(conff)),
        ]);
    }
    Ok(out)
}


/// Every field whose key the override holds already carries the
/// override's value.
pub open spec fn settled(x: Seq<(Seq<char>, JVal)>, o: Seq<(Seq<char>, JVal)>) -> bool {
    forall|i: int| 0 <= i < x.len() ==> match crate::json::oget(o, (#[trigger] x[i]).0) {
        Some(w) => x[i].1 == w,
        None => true,
    }
}

/// Replacement leaves a settled object.
pub proof fn lemma_replace_settled(e: Seq<(Seq<char>, JVal)>, o: Seq<(Seq<char>, JVal)>)
    ensures
        settled(replace_vals(e, o), o),
{
    lemma_replace_vals(e, o);
}

/// Replacing in a settled object changes nothing.
pub proof fn lemma_settled_replace_id(x: Seq<(Seq<char>, JVal)>, o: Seq<(Seq<char>, JVal)>)
    requires
        settled(x, o),
    ensures
        replace_vals(x, o) == x,
{
    lemma_replace_vals(x, o);
    assert forall|i: int| 0 <= i < x.len() implies replace_vals(x, o)[i] == x[i] by {
        assert(replace_vals(x, o)[i] == (
            x[i].0,
            match crate::json::oget(o, x[i].0) {
                Some(w) => w,
                None => x[i].1,
            },
        ));
    }
    assert(replace_vals(x, o) =~= x);
}

/// A lookup after a push: the pushed field answers only for a key the
/// object did not hold.
pub proof fn lemma_oget_push(
    acc: Seq<(Seq<char>, JVal)>,
    x: (Seq<char>, JVal),
    k: Seq<char>,
)
    ensures
        crate::json::oget(acc.push(x), k) == (if crate::json::ohas(acc, k) {
            crate::json::oget(acc, k)
        } else if x.0 == k {
            Some(x.1)
        } else {
            None
        }),
    decreases acc,
{
    if acc.len() == 0 {
        assert(acc.push(x) =~= seq![x]);
        assert(seq![x].subrange(1, 1) =~= Seq::<(Seq<char>, JVal)>::empty());
        assert(!crate::json::ohas(acc, k));
        if x.0 == k {
            assert(crate::json::oget(acc.push(x), k) == Some(x.1));
        } else {
            assert(crate::json::oget(acc.push(x), k) == crate::json::oget(
                seq![x].subrange(1, 1),
                k,
            ));
            assert(crate::json::oget(acc.push(x), k) is None);
        }
    } else {
        let tail = acc.subrange(1, acc.len() as int);
        lemma_oget_push(tail, x, k);
        assert(acc.push(x)[0] == acc[0]);
        assert(acc.push(x).subrange(1, acc.push(x).len() as int) =~= tail.push(x));
        if acc[0].0 == k {
            assert(crate::json::oget(acc.push(x), k) == Some(acc[0].1));
            assert(crate::json::oget(acc, k) == Some(acc[0].1));
        } else {
            assert(crate::json::oget(acc.push(x), k) == crate::json::oget(tail.push(x), k));
            assert(crate::json::oget(acc, k) == crate::json::oget(tail, k));
        }
    }
}

/// Appending fields whose keys are all present changes nothing.
pub proof fn lemma_mrg_noop(acc: Seq<(Seq<char>, JVal)>, rest: Seq<(Seq<char>, JVal)>)
    requires
        forall|j: int| 0 <= j < rest.len() ==> crate::json::ohas(acc, rest[j].0),
    ensures
        mrg(acc, rest) == acc,
    decreases rest,
{
    if rest.len() > 0 {
        assert(crate::json::ohas(acc, rest[0].0));
        let tail = rest.subrange(1, rest.len() as int);
        assert(forall|j: int| 0 <= j < tail.len() ==> tail[j] == rest[j + 1]);
        lemma_mrg_noop(acc, tail);
    }
}

/// Walking the override from position `t` on: the result stays settled,
/// ends with every override key present, and keeps every key the
/// accumulator already had.
pub proof fn lemma_mrg_master(
    acc: Seq<(Seq<char>, JVal)>,
    o: Seq<(Seq<char>, JVal)>,
    t: int,
)
    requires
        0 <= t <= o.len(),
        settled(acc, o),
        forall|j: int| 0 <= j < t ==> crate::json::ohas(acc, o[j].0),
    ensures
        ({
            let m = mrg(acc, o.subrange(t, o.len() as int));
            &&& settled(m, o)
            &&& forall|j: int| 0 <= j < o.len() ==> crate::json::ohas(m, o[j].0)
            &&& forall|k: Seq<char>| crate::json::ohas(acc, k) ==> crate::json::ohas(m, k)
        }),
    decreases o.len() - t,
{
    let rest = o.subrange(t, o.len() as int);
    if t == o.len() {
        assert(rest =~= Seq::<(Seq<char>, JVal)>::empty());
        assert(mrg(acc, rest) == acc);
        assert forall|j: int| 0 <= j < o.len() implies crate::json::ohas(acc, o[j].0) by {}
    } else {
        assert(rest[0] == o[t]);
        assert(rest.subrange(1, rest.len() as int) =~= o.subrange(t + 1, o.len() as int));
        if crate::json::ohas(acc, o[t].0) {
            lemma_mrg_master(acc, o, t + 1);
            assert(mrg(acc, rest) == mrg(acc, o.subrange(t + 1, o.len() as int)));
        } else {
            let acc2 = acc.push(o[t]);
            assert forall|j: int| 0 <= j < o.len() implies (crate::json::ohas(
                acc2,
                o[j].0,
            ) == (crate::json::ohas(acc, o[j].0) || o[j].0 == o[t].0)) by {
                lemma_oget_push(acc, o[t], o[j].0);
            }
            assert forall|j: int| 0 <= j < t + 1 implies crate::json::ohas(acc2, o[j].0) by {}
            // the pushed field is the first occurrence of its key in the
            // override, so its value is the override's value for that key
            assert forall|j: int| 0 <= j < t implies o[j].0 != o[t].0 by {}
            crate::json::lemma_oget_skip(o, o[t].0, t);
            assert(o.subrange(t, o.len() as int)[0] == o[t]);
            assert(crate::json::oget(o, o[t].0) == Some(o[t].1));
            assert forall|i: int| 0 <= i < acc2.len() implies match crate::json::oget(
                o,
                (#[trigger] acc2[i]).0,
            ) {
                Some(w) => acc2[i].1 == w,
                None => true,
            } by {
                if i < acc.len() {
                    assert(acc2[i] == acc[i]);
                } else {
                    assert(acc2[i] == o[t]);
                }
            }
            assert(settled(acc2, o));
            lemma_mrg_master(acc2, o, t + 1);
            assert(mrg(acc, rest) == mrg(acc2, o.subrange(t + 1, o.len() as int)));
            assert forall|k: Seq<char>|
                crate::json::ohas(acc, k) implies crate::json::ohas(acc2, k) by {
                lemma_oget_push(acc, o[t], k);
            }
        }
    }
}

/// Merging the same override twice is the same as merging it once.
pub proof fn lemma_merge_absorb(e: Seq<(Seq<char>, JVal)>, o: Seq<(Seq<char>, JVal)>)
    ensures
        merge_fields(merge_fields(e, o), o) == merge_fields(e, o),
{
    let r = replace_vals(e, o);
    let m = merge_fields(e, o);
    lemma_replace_settled(e, o);
    assert(o.subrange(0, o.len() as int) =~= o);
    lemma_mrg_master(r, o, 0);
    assert(m == mrg(r, o));
    assert(settled(m, o));
    lemma_settled_replace_id(m, o);
    assert(merge_fields(m, o) == mrg(m, o));
    lemma_mrg_noop(m, o);
}

/// Storing the same field twice is the same as storing it once.
pub proof fn lemma_oset_absorb(fs: Seq<(Seq<char>, JVal)>, k: Seq<char>, v: JVal)
    ensures
        crate::json::oset(crate::json::oset(fs, k, v), k, v) == crate::json::oset(fs, k, v),
    decreases fs,
{
    if fs.len() == 0 {
        let s1 = crate::json::oset(fs, k, v);
        assert(s1 =~= seq![(k, v)]);
        assert(crate::json::oset(s1, k, v) =~= seq![(k, v)] + s1.subrange(1, 1));
        assert(seq![(k, v)] + s1.subrange(1, 1) =~= s1);
    } else if fs[0].0 == k {
        let s1 = crate::json::oset(fs, k, v);
        assert(s1[0] == (k, v));
        assert(crate::json::oset(s1, k, v) =~= seq![(k, v)] + s1.subrange(
            1,
            s1.len() as int,
        ));
        assert(seq![(k, v)] + s1.subrange(1, s1.len() as int) =~= s1);
    } else {
        lemma_oset_absorb(fs.subrange(1, fs.len() as int), k, v);
        let s1 = crate::json::oset(fs, k, v);
        assert(s1 =~= seq![fs[0]] + crate::json::oset(fs.subrange(1, fs.len() as int), k, v));
        assert(s1[0] == fs[0]);
        assert(s1.subrange(1, s1.len() as int) =~= crate::json::oset(
            fs.subrange(1, fs.len() as int),
            k,
            v,
        ));
        assert(crate::json::oset(s1, k, v) =~= seq![fs[0]] + crate::json::oset(
            s1.subrange(1, s1.len() as int),
            k,
            v,
        ));
        assert(crate::json::oset(s1, k, v) =~= s1);
    }
}

/// Installing an integration twice in a row yields the same document as
/// installing it once: the second install overwrites the entry with an
/// identical one. Holds for any document, catalog entry and override.
pub proof fn law_install_idempotent(
    doc: JVal,
    cfg: (Seq<char>, Seq<char>, Seq<Seq<char>>),
    over: Option<JVal>,
    d1: JVal,
)
    requires
        apply_install_spec(doc, cfg, over) == Ok::<JVal, Seq<char>>(d1),
    ensures
        apply_install_spec(d1, cfg, over) == Ok::<JVal, Seq<char>>(d1),
{
    reveal_strlit("mcpServers");
    reveal_strlit("command");
    reveal_strlit("args");
    reveal_strlit("env");
    assert("mcpServers"@.len() == 10);
    assert("command"@.len() == 7);
    assert("args"@.len() == 4);
    assert("env"@.len() == 3);
    let servers = (match jget(doc, "mcpServers"@) {
        Some(JVal::Obj(s)) => s,
        _ => Seq::empty(),
    });
    let env1 = merged_env(servers, cfg.0, over);
    let entry1 = install_entry(cfg, env1);
    let servers1 = crate::json::oset(servers, cfg.0, entry1);
    let docf = doc->Obj_0;
    assert(d1 == JVal::Obj(crate::json::oset(docf, "mcpServers"@, JVal::Obj(servers1))));
    crate::json::lemma_oget_oset(docf, "mcpServers"@, JVal::Obj(servers1));
    assert(jget(d1, "mcpServers"@) == Some(JVal::Obj(servers1)));
    crate::json::lemma_oget_oset(servers, cfg.0, entry1);
    assert(crate::json::oget(servers1, cfg.0) == Some(entry1));
    // the stored entry's environment field
    let ef = entry1->Obj_0;
    assert(ef == seq![
        ("command"@, JVal::Str(cfg.1)),
        ("args"@, JVal::Arr(subst_args(cfg.2, env1))),
        ("env"@, env1),
    ]);
    assert(ef[0].0 != "env"@);
    assert(ef[1].0 != "env"@);
    assert(ef.subrange(1, 3)[0] == ef[1]);
    assert(ef.subrange(1, 3).subrange(1, 2) =~= ef.subrange(2, 3));
    assert(ef.subrange(2, 3)[0] == ef[2]);
    assert(ef.subrange(2, 3).subrange(1, 1) =~= Seq::<(Seq<char>, JVal)>::empty());
    assert(ef.len() == 3);
    assert(crate::json::oget(ef.subrange(2, 3), "env"@) == Some(env1));
    assert(ef.subrange(1, 3).len() == 2);
    assert(crate::json::oget(ef.subrange(1, 3), "env"@) == crate::json::oget(
        ef.subrange(1, 3).subrange(1, 2),
        "env"@,
    ));
    assert(crate::json::oget(ef, "env"@) == crate::json::oget(ef.subrange(1, 3), "env"@));
    assert(crate::json::oget(ef, "env"@) == Some(env1));
    assert(existing_env_of(servers1, cfg.0) == Some(env1));
    // the environment settles after the first install
    let env2 = merged_env(servers1, cfg.0, over);
    match over {
        None => {
            assert(env2 == env1);
        },
        Some(o) => {
            let exf = obj_fields_or_empty(existing_env_of(servers, cfg.0));
            let of = obj_fields_or_empty(Some(o));
            assert(env1 == JVal::Obj(merge_fields(exf, of)));
            lemma_merge_absorb(exf, of);
            assert(env2 == JVal::Obj(merge_fields(merge_fields(exf, of), of)));
            assert(env2 == env1);
        },
    }
    let entry2 = install_entry(cfg, env2);
    assert(entry2 == entry1);
    lemma_oset_absorb(servers, cfg.0, entry1);
    assert(crate::json::oset(servers1, cfg.0, entry2) == servers1);
    lemma_oset_absorb(docf, "mcpServers"@, JVal::Obj(servers1));
    assert(apply_install_spec(d1, cfg, over) == Ok::<JVal, Seq<char>>(
        jset(d1, "mcpServers"@, JVal::Obj(servers1)),
    ));
    assert(jset(d1, "mcpServers"@, JVal::Obj(servers1)) == d1);
}


/// Lookup through replacement: the keys are those of the base, each value
/// overridden where the override holds the key.
proof fn lemma_oget_replace(
    e: Seq<(Seq<char>, JVal)>,
    o: Seq<(Seq<char>, JVal)>,
    k: Seq<char>,
)
    ensures
        crate::json::oget(replace_vals(e, o), k) == match crate::json::oget(e, k) {
            Some(v) => Some(
                match crate::json::oget(o, k) {
                    Some(w) => w,
                    None => v,
                },
            ),
            None => None,
        },
    decreases e,
{
    lemma_replace_vals(e, o);
    if e.len() > 0 {
        lemma_oget_replace(e.subrange(1, e.len() as int), o, k);
        lemma_replace_vals(e.subrange(1, e.len() as int), o);
        assert(replace_vals(e, o)[0] == (
            e[0].0,
            match crate::json::oget(o, e[0].0) {
                Some(w) => w,
                None => e[0].1,
            },
        ));
        assert(replace_vals(e, o).subrange(1, replace_vals(e, o).len() as int) =~= replace_vals(
            e.subrange(1, e.len() as int),
            o,
        ));
    }
}

/// Appending fields never changes the value found for a key the
/// accumulator already holds.
proof fn lemma_mrg_oget_old(
    acc: Seq<(Seq<char>, JVal)>,
    rest: Seq<(Seq<char>, JVal)>,
    k: Seq<char>,
)
    requires
        crate::json::ohas(acc, k),
    ensures
        crate::json::oget(mrg(acc, rest), k) == crate::json::oget(acc, k),
    decreases rest,
{
    if rest.len() > 0 {
        let tail = rest.subrange(1, rest.len() as int);
        if crate::json::ohas(acc, rest[0].0) {
            lemma_mrg_oget_old(acc, tail, k);
        } else {
            lemma_oget_push(acc, rest[0], k);
            lemma_oget_push(acc, rest[0], rest[0].0);
            lemma_mrg_oget_old(acc.push(rest[0]), tail, k);
        }
    }
}

/// For a key the accumulator lacks, the appended fields answer exactly as
/// the override's own first occurrence does.
proof fn lemma_mrg_oget_new(
    acc: Seq<(Seq<char>, JVal)>,
    rest: Seq<(Seq<char>, JVal)>,
    k: Seq<char>,
)
    requires
        !crate::json::ohas(acc, k),
    ensures
        crate::json::oget(mrg(acc, rest), k) == crate::json::oget(rest, k),
    decreases rest,
{
    if rest.len() > 0 {
        let tail = rest.subrange(1, rest.len() as int);
        if rest[0].0 == k {
            assert(!crate::json::ohas(acc, rest[0].0));
            lemma_oget_push(acc, rest[0], k);
            assert(crate::json::oget(acc.push(rest[0]), k) == Some(rest[0].1));
            lemma_mrg_oget_old(acc.push(rest[0]), tail, k);
            assert(crate::json::oget(rest, k) == Some(rest[0].1));
        } else {
            if crate::json::ohas(acc, rest[0].0) {
                lemma_mrg_oget_new(acc, tail, k);
            } else {
                lemma_oget_push(acc, rest[0], k);
                lemma_mrg_oget_new(acc.push(rest[0]), tail, k);
            }
            assert(crate::json::oget(rest, k) == crate::json::oget(tail, k));
        }
    }
}

/// The override wins per key: after a merge, a key the override holds
/// carries the override's value, and every other key carries the base's
/// value, exactly.
pub proof fn law_merge_override_wins(
    e: Seq<(Seq<char>, JVal)>,
    o: Seq<(Seq<char>, JVal)>,
    k: Seq<char>,
)
    ensures
        crate::json::oget(merge_fields(e, o), k) == (if crate::json::ohas(o, k) {
            crate::json::oget(o, k)
        } else {
            crate::json::oget(e, k)
        }),
{
    lemma_oget_replace(e, o, k);
    if crate::json::ohas(e, k) {
        lemma_mrg_oget_old(replace_vals(e, o), o, k);
    } else {
        lemma_mrg_oget_new(replace_vals(e, o), o, k);
    }
}


/// After an install, the integration's entry stands in `mcpServers` under
/// its key, holding exactly the resolved command, the substituted
/// arguments and the merged environment.
pub proof fn law_install_visible(
    doc: JVal,
    cfg: (Seq<char>, Seq<char>, Seq<Seq<char>>),
    over: Option<JVal>,
    d1: JVal,
)
    requires
        apply_install_spec(doc, cfg, over) == Ok::<JVal, Seq<char>>(d1),
    ensures
        ({
            let servers = (match jget(doc, "mcpServers"@) {
                Some(JVal::Obj(s)) => s,
                _ => Seq::empty(),
            });
            let env = merged_env(servers, cfg.0, over);
            jget(d1, "mcpServers"@) matches Some(ns) && crate::json::jget(ns, cfg.0) == Some(
                install_entry(cfg, env),
            )
        }),
{
    let servers = (match jget(doc, "mcpServers"@) {
        Some(JVal::Obj(s)) => s,
        _ => Seq::empty(),
    });
    let env = merged_env(servers, cfg.0, over);
    let entry = install_entry(cfg, env);
    let docf = doc->Obj_0;
    crate::json::lemma_oget_oset(
        docf,
        "mcpServers"@,
        JVal::Obj(crate::json::oset(servers, cfg.0, entry)),
    );
    crate::json::lemma_oget_oset(servers, cfg.0, entry);
}

/// After an uninstall that found the entry, the integration's key is gone
/// from `mcpServers` entirely.
pub proof fn law_uninstall_removes(doc: JVal, key: Seq<char>)
    requires
        jget(doc, "mcpServers"@) matches Some(s) && s is Obj,
    ensures
        ({
            let servers = jget(doc, "mcpServers"@)->0->Obj_0;
            let nd = jset(doc, "mcpServers"@, JVal::Obj(crate::json::oremove(servers, key)));
            jget(nd, "mcpServers"@) matches Some(ns) && crate::json::jget(ns, key) is None
        }),
{
    let servers = jget(doc, "mcpServers"@)->0->Obj_0;
    let docf = doc->Obj_0;
    crate::json::lemma_oget_oset(
        docf,
        "mcpServers"@,
        JVal::Obj(crate::json::oremove(servers, key)),
    );
    crate::json::lemma_oget_oremove(servers, key);
}


/// Replace a client's path configuration at runtime and drop that
/// client's cached document, so the next read goes to the new location.
pub fn set_client_config_path(
    ctx: &mut AppContext,
    client: &str,
    base_dir: &str,
    config_filename: &str,
) -> (r: Result<String, String>)
    ensures
        final(ctx).env == old(ctx).env,
        final(ctx).test_config_path == old(ctx).test_config_path,
        final(ctx).registry_cache == old(ctx).registry_cache,
        match clients::client_of_name(client@) {
            Some(ct) => r is Ok && (reg_entry(final(ctx).clients, ct) matches Some(e)
                && e.base_dir@ == base_dir@ && e.config_filename@ == config_filename@)
                && cache_view(final(ctx).config_cache, ct) is None && (forall|c: ClientType|
                c != ct ==> cache_view(final(ctx).config_cache, c) == cache_view(
                    old(ctx).config_cache,
                    c,
                )),
            None => *final(ctx) == *old(ctx) && (r matches Err(m) && m@ == "Invalid client: "@
                + client@),
        },
{
    let client_type = match ClientType::from_str(client) {
        Some(ct) => ct,
        None => {
            return Err("Invalid client: ".to_owned().concat(client));
        },
    };
    let config = clients::ClientPathConfig {
        base_dir: base_dir.to_owned(),
        config_filename: config_filename.to_owned(),
        os: crate::os::OSType::default(),
    };
    match clients::set_client_path_config(&mut ctx.clients, &client_type, config) {
        Ok(_) => {},
        Err(e) => {
            return Err(e);
        },
    }
    ctx.config_cache.clear(&client_type);
    Ok(
        "Successfully updated path configuration for ".to_owned().concat(
            client_type.as_str(),
        ),
    )
}

/// A client's current path configuration as a small JSON object with its
/// base directory and file name.
pub fn get_client_config_path(ctx: &mut AppContext, client: &str) -> (r: Result<
    JsonValue,
    String,
>)
    ensures
        !clients::reg_is_empty(old(ctx).clients) ==> final(ctx).clients == old(ctx).clients,
        final(ctx).env == old(ctx).env,
        final(ctx).config_cache == old(ctx).config_cache,
        final(ctx).test_config_path == old(ctx).test_config_path,
        final(ctx).registry_cache == old(ctx).registry_cache,
        match clients::client_of_name(client@) {
            Some(ct) => match reg_entry(final(ctx).clients, ct) {
                Some(e) => r matches Ok(v) && jval_at(v) == JVal::Obj(
                    seq![
                        ("base_dir"@, JVal::Str(e.base_dir@)),
                        ("config_filename"@, JVal::Str(e.config_filename@)),
                    ],
                ),
                None => r is Err,
            },
            None => *final(ctx) == *old(ctx) && (r matches Err(m) && m@ == "Invalid client: "@
                + client@),
        },
{
    let client_type = match ClientType::from_str(client) {
        Some(ct) => ct,
        None => {
            return Err("Invalid client: ".to_owned().concat(client));
        },
    };
    let cfg = match clients::get_client_path_config(&mut ctx.clients, &client_type) {
        Ok(c) => c,
        Err(e) => {
            return Err(e);
        },
    };
    proof {
        reveal_strlit("base_dir");
        reveal_strlit("config_filename");
        assert("base_dir"@.len() == 8);
        assert("config_filename"@.len() == 15);
        crate::json::lemma_oset_absent(Seq::empty(), "base_dir"@, JVal::Str(cfg.base_dir@));
    }
    let r0 = JsonValue::empty_object().obj_set("base_dir", JsonValue::Str(cfg.base_dir));
    let ghost r0f = seq![("base_dir"@, JVal::Str(cfg.base_dir@))];
    proof {
        assert(jval_at(r0) == JVal::Obj(r0f));
        crate::json::lemma_oset_absent(r0f, "config_filename"@, JVal::Str(cfg.config_filename@));
    }
    let out = r0.obj_set("config_filename", JsonValue::Str(cfg.config_filename));
    proof {
        assert(jval_at(out) == JVal::Obj(
            r0f.push(("config_filename"@, JVal::Str(cfg.config_filename@))),
        ));
        assert(r0f.push(("config_filename"@, JVal::Str(cfg.config_filename@))) =~= seq![
            ("base_dir"@, JVal::Str(cfg.base_dir@)),
            ("config_filename"@, JVal::Str(cfg.config_filename@)),
        ]);
    }
    Ok(out)
}

/// The display names of every supported client.
pub fn get_supported_clients() -> (r: Vec<String>)
    ensures
        r@.len() == 3,
        r@[0]@ == clients::client_name(ClientType::Anchor),
        r@[1]@ == clients::client_name(ClientType::Cursor),
        r@[2]@ == clients::client_name(ClientType::Windsurf),
{
    let names = ClientType::all_as_str();
    let mut out: Vec<String> = Vec::new();
    out.push(names[0].to_owned());
    out.push(names[1].to_owned());
    out.push(names[2].to_owned());
    out
}

/// The display name of the client used when none is named.
pub fn get_default_client_command() -> (r: String)
    ensures
        r@ == clients::client_name(ClientType::Anchor),
{
    get_default_client().as_str().to_owned()
}

} // verus!
