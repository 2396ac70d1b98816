//! The client registry: the closed set of supported client applications and
//! the runtime-overridable table mapping each to its configuration path.

use vstd::prelude::*;
use crate::os::OSType;

verus! {

/// A supported client application.
#[derive(Clone, Copy, Debug, PartialEq, Eq, Hash, Structural)]
pub enum ClientType {
    Anchor,
    Cursor,
    Windsurf,
}

/// The display name of a client.
pub open spec fn client_name(c: ClientType) -> Seq<char> {
    match c {
        ClientType::Anchor => "Anchor"@,
        ClientType::Cursor => "Cursor"@,
        ClientType::Windsurf => "Windsurf"@,
    }
}

/// The client with the given display name, if any.
pub open spec fn client_of_name(s: Seq<char>) -> Option<ClientType> {
    if s == client_name(ClientType::Anchor) {
        Some(ClientType::Anchor)
    } else if s == client_name(ClientType::Cursor) {
        Some(ClientType::Cursor)
    } else if s == client_name(ClientType::Windsurf) {
        Some(ClientType::Windsurf)
    } else {
        None
    }
}

impl ClientType {
    /// The display name of this client.
    pub fn as_str(&self) -> (r: &'static str)
        ensures
            r@ == client_name(*self),
    {
        match self {
            ClientType::Anchor => "Anchor",
            ClientType::Cursor => "Cursor",
            ClientType::Windsurf => "Windsurf",
        }
    }

    /// The client with the given display name; `None` for any other string.
    pub fn from_str(s: &str) -> (r: Option<ClientType>)
        ensures
            r == client_of_name(s@),
    {
        if crate::json::str_eq(s, "Anchor") {
            Some(ClientType::Anchor)
        } else if crate::json::str_eq(s, "Cursor") {
            Some(ClientType::Cursor)
        } else if crate::json::str_eq(s, "Windsurf") {
            Some(ClientType::Windsurf)
        } else {
            None
        }
    }

    /// Every supported client, in a fixed order.
    pub fn all() -> (r: Vec<ClientType>)
        ensures
            r@ == seq![ClientType::Anchor, ClientType::Cursor, ClientType::Windsurf],
    {
        let mut v: Vec<ClientType> = Vec::new();
        v.push(ClientType::Anchor);
        v.push(ClientType::Cursor);
        v.push(ClientType::Windsurf);
        proof {
            assert(v@ =~= seq![ClientType::Anchor, ClientType::Cursor, ClientType::Windsurf]);
        }
        v
    }

    /// The display names of every supported client, in the same order.
    pub fn all_as_str() -> (r: Vec<&'static str>)
        ensures
            r@.len() == 3,
            r@[0]@ == client_name(ClientType::Anchor),
            r@[1]@ == client_name(ClientType::Cursor),
            r@[2]@ == client_name(ClientType::Windsurf),
    {
        let mut v: Vec<&'static str> = Vec::new();
        v.push("Anchor");
        v.push("Cursor");
        v.push("Windsurf");
        v
    }

    /// The client assumed when none is named.
    pub fn default() -> (r: ClientType)
        ensures
            r == ClientType::Anchor,
    {
        ClientType::Anchor
    }
}

/// Where a client's configuration file lives: a base directory and the
/// file's name inside it.
#[derive(Debug)]
pub struct ClientPathConfig {
    pub base_dir: String,
    pub config_filename: String,
    pub os: OSType,
}

impl ClientPathConfig {
    /// A copy of this path configuration.
    pub fn duplicate(&self) -> (r: ClientPathConfig)
        ensures
            r.base_dir@ == self.base_dir@,
            r.config_filename@ == self.config_filename@,
            r.os == self.os,
    {
        ClientPathConfig {
            base_dir: self.base_dir.clone(),
            config_filename: self.config_filename.clone(),
            os: self.os,
        }
    }
}

/// The runtime table of path configurations, one slot per supported client.
/// Slots start empty and are seeded once with host defaults.
#[derive(Debug)]
pub struct ClientPathRegistry {
    pub anchor: Option<ClientPathConfig>,
    pub cursor: Option<ClientPathConfig>,
    pub windsurf: Option<ClientPathConfig>,
}

/// The slot of a client in the table.
pub open spec fn reg_entry(reg: ClientPathRegistry, c: ClientType) -> Option<ClientPathConfig> {
    match c {
        ClientType::Anchor => reg.anchor,
        ClientType::Cursor => reg.cursor,
        ClientType::Windsurf => reg.windsurf,
    }
}

/// Whether no client has a path configuration yet.
pub open spec fn reg_is_empty(reg: ClientPathRegistry) -> bool {
    reg.anchor is None && reg.cursor is None && reg.windsurf is None
}

impl ClientPathRegistry {
    /// A table with every slot empty.
    pub fn new() -> (r: ClientPathRegistry)
        ensures
            reg_is_empty(r),
    {
        ClientPathRegistry { anchor: None, cursor: None, windsurf: None }
    }
}

/// Relies on `dirs::home_dir`: the user's home directory, where the host
/// reports one. The result depends on the process environment, so nothing
/// more is stated of it.
#[verifier::external_body]
fn home_dir_string() -> (r: Option<String>)
{
    dirs::home_dir().map(|p| p.to_string_lossy().into_owned())
}

/// The table as seeding leaves it: every slot filled with the documented
/// default location under the home directory `h`.
pub open spec fn seeded_default(reg: ClientPathRegistry, h: Seq<char>) -> bool {
    &&& (reg_entry(reg, ClientType::Anchor) matches Some(p) && p.base_dir@ == h
        + "/Library/Application Support/Anchor"@ && p.config_filename@
        == "anchor_desktop_config.json"@)
    &&& (reg_entry(reg, ClientType::Cursor) matches Some(p) && p.base_dir@ == h + "/.cursor"@
        && p.config_filename@ == "mcp.json"@)
    &&& (reg_entry(reg, ClientType::Windsurf) matches Some(p) && p.base_dir@ == h
        + "/.codeium/windsurf"@ && p.config_filename@ == "mcp_config.json"@)
}

/// Seed the table with the default locations under the given home
/// directory. Every slot is filled.
pub fn seed_default_configs(reg: &mut ClientPathRegistry, home: &str)
    ensures
        seeded_default(*final(reg), home@),
{
    let anchor_dir = home.to_owned().concat("/Library/Application Support/Anchor");
    reg.anchor = Some(
        ClientPathConfig {
            base_dir: anchor_dir,
            config_filename: "anchor_desktop_config.json".to_owned(),
            os: OSType::default(),
        },
    );
    let cursor_dir = home.to_owned().concat("/.cursor");
    reg.cursor = Some(
        ClientPathConfig {
            base_dir: cursor_dir,
            config_filename: "mcp.json".to_owned(),
            os: OSType::default(),
        },
    );
    let windsurf_dir = home.to_owned().concat("/.codeium/windsurf");
    reg.windsurf = Some(
        ClientPathConfig {
            base_dir: windsurf_dir,
            config_filename: "mcp_config.json".to_owned(),
            os: OSType::default(),
        },
    );
}

/// Seed the table with host defaults, once: a table that already holds any
/// entry is left exactly as it is. An empty table is either filled wholly
/// with the default locations under the host's home directory, or — only
/// on a host that reports none — left empty.
pub fn init_client_path_configs(reg: &mut ClientPathRegistry)
    ensures
        !reg_is_empty(*old(reg)) ==> *final(reg) == *old(reg),
        reg_is_empty(*old(reg)) ==> (*final(reg) == *old(reg) || (exists|h: Seq<char>|
            seeded_default(*final(reg), h))),
{
    if reg.anchor.is_some() || reg.cursor.is_some() || reg.windsurf.is_some() {
        return ;
    }
    match home_dir_string() {
        Some(home) => {
            seed_default_configs(reg, home.as_str());
            proof {
                assert(seeded_default(*reg, home@));
            }
        },
        None => {},
    }
}

/// The path configuration of a client, seeding the defaults first if the
/// table is still empty. `Err` exactly when the client has no entry even
/// after seeding.
pub fn get_client_path_config(reg: &mut ClientPathRegistry, client: &ClientType) -> (r: Result<
    ClientPathConfig,
    String,
>)
    ensures
        !reg_is_empty(*old(reg)) ==> *final(reg) == *old(reg),
        match r {
            Ok(p) => reg_entry(*final(reg), *client) matches Some(q) && p.base_dir@ == q.base_dir@
                && p.config_filename@ == q.config_filename@ && p.os == q.os,
            Err(m) => reg_entry(*final(reg), *client) is None && m@
                == "No path configuration for client: "@ + client_name(*client),
        },
{
    init_client_path_configs(reg);
    let slot: &Option<ClientPathConfig> = match client {
        ClientType::Anchor => &reg.anchor,
        ClientType::Cursor => &reg.cursor,
        ClientType::Windsurf => &reg.windsurf,
    };
    match slot {
        Some(p) => Ok(p.duplicate()),
        None => Err(
            "No path configuration for client: ".to_owned().concat(client.as_str()),
        ),
    }
}

/// Replace a client's path configuration. Every supported client is
/// accepted; the other slots are untouched.
pub fn set_client_path_config(reg: &mut ClientPathRegistry, client: &ClientType, config: ClientPathConfig) -> (r:
    Result<(), String>)
    ensures
        r is Ok,
        reg_entry(*final(reg), *client) == Some(config),
        forall|c: ClientType| c != *client ==> reg_entry(*final(reg), c) == reg_entry(
            *old(reg),
            c,
        ),
{
    match client {
        ClientType::Anchor => {
            reg.anchor = Some(config);
        },
        ClientType::Cursor => {
            reg.cursor = Some(config);
        },
        ClientType::Windsurf => {
            reg.windsurf = Some(config);
        },
    }
    Ok(())
}

/// Guard used at the top of every operation that takes a client: every
/// value of the closed client type is supported.
pub fn validate_client(client: &ClientType) -> (r: Result<(), String>)
    ensures
        r is Ok,
{
    match ClientType::from_str(client.as_str()) {
        Some(_) => Ok(()),
        None => Err("Unsupported client: ".to_owned().concat(client.as_str())),
    }
}

/// The client used when the caller names none.
pub fn get_default_client() -> (r: ClientType)
    ensures
        r == ClientType::Anchor,
{
    ClientType::default()
}

} // verus!
