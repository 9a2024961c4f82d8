//! The server configuration and its checks.

use vstd::prelude::*;
use crate::room::{Room, parse_code, create_room, parsed_value, room_is, code_space};

verus! {

/// Configuration of the server.
#[derive(Debug)]
pub struct Config {
    /// Minecraft server port to expose (default: 25565).
    pub port: u16,
    /// Fixed connection code (optional). If set, the same code is used on
    /// every startup. Format: `U/XXXX-XXXX-XXXX-XXXX`.
    pub code: Option<String>,
    /// Additional public relay servers.
    pub public_servers: Vec<String>,
}

/// The port used when the configuration names none.
pub fn default_port() -> (p: u16)
    ensures
        p == 25565,
{
    25565
}

/// The text written by `--init`: a commented configuration that sets the
/// default port and no relay servers.
pub const DEFAULT_CONFIG: &'static str = "# Terracotta Server 配置文件
# Terracotta Server Configuration

# Minecraft 服务端端口 / Minecraft server port
port = 25565

# 固定联机码 (可选) / Fixed connection code (optional)
# 如果设置此项，每次启动都使用相同的联机码。
# If set, the same code is used on every startup.
# Format: U/XXXX-XXXX-XXXX-XXXX
# code = \"U/ABCD-1234-EFGH-5678\"

# 额外公共中继服务器 / Additional public relay servers
public_servers = []
";

/// Whether the room a configuration leads to is right: the room of the
/// fixed code when one is set (`None` if that code does not parse), else a
/// room of some valid random value.
pub open spec fn selected_room(code: Option<Seq<char>>, r: Option<Room>) -> bool {
    match code {
        Some(c) => match parsed_value(c) {
            Some(v) => r matches Some(room) && room_is(room, v),
            None => r is None,
        },
        None => r matches Some(room) && exists|v: nat|
            v < code_space() && v % 7 == 0 && #[trigger] room_is(room, v),
    }
}

impl Config {
    /// Checks a configuration read from disk: a port of 0 is refused with
    /// the message the server prints; anything else is returned unchanged.
    pub fn validate(self) -> (r: Result<Config, String>)
        ensures
            self.port == 0 <==> r is Err,
            r matches Ok(c) ==> c == self,
            r matches Err(e) ==> e@ == "端口号不能为 0"@,
    {
        if self.port == 0 {
            return Err(String::from_str("端口号不能为 0"));
        }
        Ok(self)
    }

    /// The room the server opens: the fixed code's room when a code is set
    /// (`None` when it is not a valid code), else a freshly drawn room.
    pub fn select_room(&self) -> (r: Option<Room>)
        ensures
            selected_room(
                match self.code {
                    Some(c) => Some(c@),
                    None => None,
                },
                r,
            ),
    {
        match &self.code {
            Some(c) => parse_code(c.as_str()),
            None => {
                let room = create_room();
                let ghost v = choose|v: nat| v < code_space() && v % 7 == 0 && #[trigger] room_is(room, v);
                let r = Some(room);
                assert(r matches Some(rr) && rr == room);
                r
            },
        }
    }
}

} // verus!
