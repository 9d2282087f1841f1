//! The settings that persist between sessions.

use vstd::prelude::*;

verus! {

/// Where the game is installed, once known.
pub struct Settings {
    pub celeste_path: Option<String>,
}

impl Default for Settings {
    fn default() -> (r: Settings)
        ensures
            r.celeste_path is None,
    {
        Settings { celeste_path: None }
    }
}

} // verus!
