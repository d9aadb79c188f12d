use lje_launcher::toggle::{listed_state, toggle_rename, Rename};

#[test]
fn enabling_renames_disabled_file() {
    assert_eq!(toggle_rename(true, false, true), Rename::Enable);
    assert_eq!(toggle_rename(true, true, true), Rename::Enable);
    assert_eq!(toggle_rename(true, true, false), Rename::Keep);
    assert_eq!(toggle_rename(true, false, false), Rename::Keep);
}

#[test]
fn disabling_renames_active_file() {
    assert_eq!(toggle_rename(false, true, false), Rename::Disable);
    assert_eq!(toggle_rename(false, true, true), Rename::Disable);
    assert_eq!(toggle_rename(false, false, true), Rename::Keep);
    assert_eq!(toggle_rename(false, false, false), Rename::Keep);
}

#[test]
fn toggling_twice_renames_once() {
    // Disable an enabled item: after the rename only the disabled file exists.
    assert_eq!(toggle_rename(false, true, false), Rename::Disable);
    assert_eq!(toggle_rename(false, false, true), Rename::Keep);
    // Enable it again.
    assert_eq!(toggle_rename(true, false, true), Rename::Enable);
    assert_eq!(toggle_rename(true, true, false), Rename::Keep);
}

#[test]
fn listing_reads_state_from_files() {
    assert_eq!(listed_state(true, false), Some(true));
    assert_eq!(listed_state(true, true), Some(true));
    assert_eq!(listed_state(false, true), Some(false));
    assert_eq!(listed_state(false, false), None);
}

#[test]
fn toggled_item_lists_in_requested_state() {
    // An enabled script (only info.toml) is disabled: the rename leaves only
    // info.toml.disabled, which lists as disabled.
    assert_eq!(toggle_rename(false, true, false), Rename::Disable);
    assert_eq!(listed_state(false, true), Some(false));
    // Enabling it again leaves only info.toml.
    assert_eq!(toggle_rename(true, false, true), Rename::Enable);
    assert_eq!(listed_state(true, false), Some(true));
}
