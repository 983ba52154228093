//! Application settings: the picker command and the extra snippet
//! directories.

use vstd::prelude::*;

verus! {

/// The picker command used when the settings name none: fzf with colour
/// support, reverse layout, a rounded border and half the screen's height.
pub open spec fn default_filter_command() -> Seq<char> {
    "fzf --ansi --layout=reverse --border=rounded --height=50%"@
}

/// Global settings.
#[derive(Debug)]
pub struct AppConfig {
    /// The picker program and its arguments, separated by white space.
    pub filter_command: String,
    /// Extra directories to scan (not recursively) after the primary one.
    pub directories: Vec<String>,
}

impl Default for AppConfig {
    fn default() -> (r: AppConfig)
        ensures
            r.filter_command@ == default_filter_command(),
            r.directories@.len() == 0,
    {
        AppConfig {
            filter_command: "fzf --ansi --layout=reverse --border=rounded --height=50%".to_string(),
            directories: Vec::new(),
        }
    }
}

} // verus!
