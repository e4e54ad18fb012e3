//! The workspace configuration: which globs, relative to the configuration's directory,
//! enumerate the hub documents. Reading the file and walking up to find it are the caller's.

use vstd::prelude::*;

verus! {

/// The marker file that roots a workspace.
pub const CONFIG_FILE: &'static str = "surf.toml";

/// The glob used when the configuration names none.
pub open spec fn default_hub_glob() -> Seq<char> {
    "hubs/*.md"@
}

/// The workspace configuration.
#[derive(Debug, Clone, PartialEq, Eq)]
pub struct Config {
    /// Globs, relative to the configuration's directory, that enumerate hub documents.
    pub hubs: Vec<String>,
}

impl Config {
    /// The globs as text.
    pub open spec fn hub_globs(&self) -> Seq<Seq<char>> {
        self.hubs@.map_values(|s: String| s@)
    }
}

/// The globs a configuration has when it names none: `hubs/*.md` alone.
pub fn default_hubs() -> (v: Vec<String>)
    ensures
        v@.map_values(|s: String| s@) == seq![default_hub_glob()],
{
    let mut v: Vec<String> = Vec::new();
    let g = "hubs/*.md".to_owned();
    v.push(g);
    proof {
        assert(v@.map_values(|s: String| s@) =~= seq![default_hub_glob()]);
    }
    v
}

impl Default for Config {
    fn default() -> (c: Config)
        ensures
            c.hub_globs() == seq![default_hub_glob()],
    {
        Config { hubs: default_hubs() }
    }
}

/// A configuration file that could not be read as one; the text is the parser's message.
#[derive(Debug, Clone, PartialEq, Eq)]
pub enum ConfigError {
    Toml(String),
}

impl ConfigError {
    /// The message shown to a user.
    pub fn message(&self) -> (m: String)
        ensures
            match self {
                ConfigError::Toml(e) => m@ == "invalid surf.toml: "@ + e@,
            },
    {
        match self {
            ConfigError::Toml(e) => {
                let mut m = "invalid surf.toml: ".to_owned();
                m.push_str(e.as_str());
                m
            }
        }
    }
}

} // verus!
