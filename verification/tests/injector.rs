use lje_launcher::injector::{
    command_line, debug_step, is_marker_dll, is_marker_lower, launch_error, loader_path_bytes, wait_error, DebugStep,
    EXIT_PROCESS_DEBUG_EVENT, LOAD_DLL_DEBUG_EVENT,
};
use lje_launcher::wide::wide;

#[test]
fn command_line_joins_and_trims() {
    assert_eq!(command_line(r"C:\g\gmod.exe", "-console"), r"C:\g\gmod.exe -console");
    assert_eq!(command_line(r"C:\g\gmod.exe", ""), r"C:\g\gmod.exe");
    assert_eq!(command_line(" a ", " b "), "a   b");
}

#[test]
fn marker_dll_in_any_case() {
    assert!(is_marker_dll(r"\Device\HarddiskVolume3\g\bin\win64\menusystem.dll"));
    assert!(is_marker_dll(r"\Device\x\MenuSystem.DLL"));
    assert!(!is_marker_dll(r"\Device\x\lua_shared.dll"));
    assert!(!is_marker_dll(""));
}

#[test]
fn debug_steps() {
    assert_eq!(debug_step(LOAD_DLL_DEBUG_EVENT, true), DebugStep::Inject);
    assert_eq!(debug_step(LOAD_DLL_DEBUG_EVENT, false), DebugStep::Continue);
    assert_eq!(debug_step(EXIT_PROCESS_DEBUG_EVENT, false), DebugStep::Abort);
    assert_eq!(debug_step(EXIT_PROCESS_DEBUG_EVENT, true), DebugStep::Abort);
    assert_eq!(debug_step(3, true), DebugStep::Continue);
}

#[test]
fn loader_path_is_ansi_with_nul() {
    assert_eq!(loader_path_bytes(r"C:\a.dll"), b"C:\\a.dll\0".to_vec());
    assert_eq!(loader_path_bytes("é/x"), b"?/x\0".to_vec());
    assert_eq!(loader_path_bytes(""), vec![0u8]);
}

#[test]
fn failure_messages() {
    assert_eq!(
        launch_error(2, "The system cannot find the file specified."),
        "gmod.exe not found. Make sure you are on the x86-64 branch of GMod."
    );
    assert_eq!(
        launch_error(5, "Access is denied."),
        "failed to create process: Error 5: Access is denied."
    );
    assert_eq!(
        wait_error(6, "The handle is invalid."),
        "failed to wait for debug event: Error 6: The handle is invalid."
    );
}

#[test]
fn wide_strings_end_in_nul() {
    assert_eq!(wide("ab"), vec![0x61, 0x62, 0]);
    assert_eq!(wide(""), vec![0]);
    assert_eq!(wide("\u{1F600}"), vec![0xD83D, 0xDE00, 0]);
}

#[test]
fn lowered_marker_name() {
    assert!(is_marker_lower(r"\device\x\bin\win64\menusystem.dll"));
    assert!(!is_marker_lower(r"\device\x\MenuSystem.DLL"));
    assert!(!is_marker_lower("menusystem.dll.bak"));
}
