//! Launcher settings, stored in `.lje_launcher_settings.json` with
//! PascalCase keys.

use vstd::prelude::*;

use crate::text::string_from;

verus! {

/// The launcher's settings.
#[derive(Debug, Clone)]
pub struct Settings {
    pub launch_args: String,
    pub release_branch: String,
}

/// The release branch used when none is configured.
pub fn default_release_branch() -> (r: String)
    ensures
        r@ == "expansion"@,
{
    string_from("expansion")
}

impl Default for Settings {
    /// No launch arguments, and the default release branch.
    fn default() -> (s: Self)
        ensures
            s.launch_args@ == Seq::<char>::empty(),
            s.release_branch@ == "expansion"@,
    {
        Settings { launch_args: String::new(), release_branch: default_release_branch() }
    }
}

} // verus!
