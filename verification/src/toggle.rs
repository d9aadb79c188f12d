//! Enabling and disabling by renaming: an item is enabled while its active
//! file (`x.dll`, `info.toml`) exists, and disabled while only the file with
//! the `.disabled` suffix does.

use vstd::prelude::*;

verus! {

/// Which rename an enable/disable request needs.
#[derive(Debug, Clone, Copy, PartialEq, Eq, Structural)]
pub enum Rename {
    /// Rename the disabled file to the active name.
    Enable,
    /// Rename the active file to the disabled name.
    Disable,
    /// Nothing to rename.
    Keep,
}

/// Which of the two files exist.
pub struct FileState {
    pub active: bool,
    pub disabled: bool,
}

/// The rename for setting the item to `enabled`, given which files exist:
/// enabling renames the disabled file back if there is one; disabling
/// renames the active file if there is one; otherwise nothing happens.
pub open spec fn rename_for(enabled: bool, active_exists: bool, disabled_exists: bool) -> Rename {
    if enabled {
        if disabled_exists {
            Rename::Enable
        } else {
            Rename::Keep
        }
    } else if active_exists {
        Rename::Disable
    } else {
        Rename::Keep
    }
}

/// The files after a rename; a rename replaces a file already at the
/// target name.
pub open spec fn after_rename(s: FileState, r: Rename) -> FileState {
    match r {
        Rename::Enable => FileState { active: true, disabled: false },
        Rename::Disable => FileState { active: false, disabled: true },
        Rename::Keep => s,
    }
}

/// The rename for setting the item to `enabled`.
pub fn toggle_rename(enabled: bool, active_exists: bool, disabled_exists: bool) -> (r: Rename)
    ensures
        r == rename_for(enabled, active_exists, disabled_exists),
{
    if enabled {
        if disabled_exists {
            Rename::Enable
        } else {
            Rename::Keep
        }
    } else if active_exists {
        Rename::Disable
    } else {
        Rename::Keep
    }
}

/// Setting the same state twice renames nothing the second time.
pub proof fn lemma_toggle_idempotent(enabled: bool, s: FileState)
    ensures
        ({
            let t = after_rename(s, rename_for(enabled, s.active, s.disabled));
            rename_for(enabled, t.active, t.disabled) == Rename::Keep
        }),
{
}

/// After setting an item that has either file, exactly the file of the
/// requested state exists.
pub proof fn lemma_toggle_reaches_state(enabled: bool, s: FileState)
    requires
        s.active || s.disabled,
    ensures
        ({
            let t = after_rename(s, rename_for(enabled, s.active, s.disabled));
            t.active == enabled && t.disabled == !enabled
        }),
{
}

/// How a listing reads an item from the files that exist: enabled while
/// the active file exists, disabled while only the disabled file does, and
/// not listed when neither does.
pub open spec fn listed_as(s: FileState) -> Option<bool> {
    if s.active {
        Some(true)
    } else if s.disabled {
        Some(false)
    } else {
        None
    }
}

/// Whether a listing shows the item as enabled, given which files exist;
/// `None` when it does not show it.
pub fn listed_state(active_exists: bool, disabled_exists: bool) -> (r: Option<bool>)
    ensures
        r == listed_as(FileState { active: active_exists, disabled: disabled_exists }),
{
    if active_exists {
        Some(true)
    } else if disabled_exists {
        Some(false)
    } else {
        None
    }
}

/// After setting an item that has either file, a listing shows it in the
/// requested state.
pub proof fn lemma_toggle_then_list(enabled: bool, s: FileState)
    requires
        s.active || s.disabled,
    ensures
        listed_as(after_rename(s, rename_for(enabled, s.active, s.disabled))) == Some(enabled),
{
}

} // verus!
