//! Settings read from a configuration file.
use vstd::prelude::*;

verus! {

/// The settings a configuration file may give; each one is optional.
pub struct Config {
    pub output_filename: Option<String>,
    pub theme: Option<String>,
    pub save: Option<bool>,
    pub template: Option<String>,
    pub port: Option<u16>,
}

impl Default for Config {
    /// No setting given.
    fn default() -> (c: Config)
        ensures
            c.output_filename is None,
            c.theme is None,
            c.save is None,
            c.template is None,
            c.port is None,
    {
        Config { output_filename: None, theme: None, save: None, template: None, port: None }
    }
}

/// Picks the configuration file to read: the local one when it exists, else the
/// global one when it exists. Each argument is the file's path when that file exists.
pub fn find_config_path(local: Option<String>, global: Option<String>) -> (r: Option<String>)
    ensures
        local is Some ==> r == local,
        local is None ==> r == global,
{
    match local {
        Some(path) => Some(path),
        None => global,
    }
}

} // verus!
