//! Runtime settings: the server address and an optional database URL
//! override. Reading the config file and the environment is the program's
//! part; what is accepted is decided here.
use vstd::prelude::*;
use crate::text::{is_blank, is_blank_seq, trim_seq};

verus! {

/// The settings the server runs with.
pub struct Settings {
    pub host: String,
    pub port: u16,
    pub database_url: Option<String>,
}

impl Settings {
    /// Settings from the values read from the config file. Refuses a blank
    /// host (`config \`server.host\` must not be empty`), then a zero port
    /// (`config \`server.port\` must not be zero`); the host and the URL are
    /// kept as written.
    pub fn from_config(host: String, port: u16, database_url: Option<String>) -> (r: Result<
        Settings,
        String,
    >)
        ensures
            match r {
                Ok(s) => {
                    &&& trim_seq(host@).len() > 0
                    &&& port != 0
                    &&& s.host == host
                    &&& s.port == port
                    &&& s.database_url == database_url
                },
                Err(m) => if trim_seq(host@).len() == 0 {
                    m@ == "config `server.host` must not be empty"@
                } else {
                    port == 0 && m@ == "config `server.port` must not be zero"@
                },
            },
    {
        if is_blank(host.as_str()) {
            return Err(String::from_str("config `server.host` must not be empty"));
        }
        if port == 0 {
            return Err(String::from_str("config `server.port` must not be zero"));
        }
        Ok(Settings { host, port, database_url })
    }

    /// The database URL the config sets, when it sets a non-blank one; the
    /// program falls back to the `DATABASE_URL` environment variable otherwise.
    pub fn configured_database_url(&self) -> (r: Option<String>)
        ensures
            match self.database_url {
                Some(u) => if is_blank_seq(u@) {
                    r is None
                } else {
                    r == Some(u)
                },
                None => r is None,
            },
    {
        match &self.database_url {
            Some(u) => {
                if is_blank(u.as_str()) {
                    None
                } else {
                    Some(u.clone())
                }
            },
            None => None,
        }
    }
}

} // verus!
