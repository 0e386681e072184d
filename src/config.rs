use vstd::prelude::*;

verus! {

/// Settings read from the user's configuration.
#[derive(Clone, Copy, PartialEq, Eq, Structural, Debug)]
pub struct Config {
    /// Whether a snapshot is taken before the list is reset.
    pub backup_on_reset: bool,
}

impl Default for Config {
    fn default() -> (r: Self)
        ensures
            r.backup_on_reset,
    {
        Config { backup_on_reset: true }
    }
}

/// The Lua text of a configuration file that holds `config`.
pub open spec fn config_text(config: Config) -> Seq<char> {
    "config = {\n    backup_on_reset = "@ + (if config.backup_on_reset {
        "true"@
    } else {
        "false"@
    }) + ",\n}\n"@
}

impl Config {
    /// The Lua text written as the configuration file when there is none.
    pub fn to_lua(&self) -> (r: String)
        ensures
            r@ == config_text(*self),
    {
        let mut r = String::from_str("config = {\n    backup_on_reset = ");
        if self.backup_on_reset {
            r.append("true");
        } else {
            r.append("false");
        }
        r.append(",\n}\n");
        r
    }

    /// The settings for a `backup_on_reset` value found in the configuration, if any; a
    /// missing value keeps the default.
    pub fn from_value(backup_on_reset: Option<bool>) -> (r: Config)
        ensures
            r.backup_on_reset == match backup_on_reset {
                Some(b) => b,
                None => true,
            },
    {
        match backup_on_reset {
            Some(b) => Config { backup_on_reset: b },
            None => Config::default(),
        }
    }
}

} // verus!
