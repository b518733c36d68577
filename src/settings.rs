use vstd::prelude::*;

verus! {

/// Failures of reading or writing the settings file.
#[derive(Debug, PartialEq, Eq, Clone)]
pub enum SettingsError {
    /// The user's configuration directory could not be found or made.
    CouldNotGetConfigDir(String),
    /// The settings file could not be read.
    FileReadError,
    /// The settings file does not hold valid settings.
    DeserializationError(String),
}

/// The user's settings.
#[derive(Debug, PartialEq, Eq, Clone)]
pub struct Settings {
    /// The project directory opened last, if any.
    pub root_dir: Option<String>,
}

impl Settings {
    /// Settings with no project directory.
    pub fn default() -> (r: Settings)
        ensures
            r.root_dir is None,
    {
        Settings { root_dir: None }
    }
}

/// The directory of the configuration, under the home directory.
pub open spec fn config_dir_suffix() -> Seq<char> {
    "/.config/memristor"@
}

/// The settings file, in the configuration directory.
pub open spec fn config_file_suffix() -> Seq<char> {
    "/config.json"@
}

/// Where the settings are kept.
pub struct ConfigStore {
    pub dir_path: String,
    pub config_file: String,
}

impl ConfigStore {
    /// The store of a user whose home directory is `home`.
    pub fn in_home(home: &str) -> (r: ConfigStore)
        ensures
            r.dir_path@ == home@ + config_dir_suffix(),
            r.config_file@ == home@ + config_dir_suffix() + config_file_suffix(),
    {
        let mut dir_path = home.to_owned();
        dir_path.append("/.config/memristor");
        let config_file = dir_path.clone().concat("/config.json");
        ConfigStore { dir_path, config_file }
    }
}

} // verus!
