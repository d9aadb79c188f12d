use lje_launcher::binaries::{
    binary_files, binary_files_from, binary_info, binary_info_from, collect_binaries, display_name,
    display_name_from, is_binary_filename, is_binary_lower,
};

#[test]
fn recognizes_binary_filenames() {
    assert!(is_binary_filename("lje-ffi.dll"));
    assert!(is_binary_filename("lje-ffi.dll.disabled"));
    assert!(is_binary_filename("LJE-FFI.DLL"));
    assert!(!is_binary_filename("ffi.dll"));
    assert!(!is_binary_filename("lje-ffi.txt"));
    assert!(!is_binary_filename("lje-ffi"));
}

#[test]
fn parses_display_names() {
    assert_eq!(display_name("lje-ffi.dll"), "lje-ffi");
    assert_eq!(display_name("lje-ffi.dll.disabled"), "lje-ffi");
    assert_eq!(display_name("LJE-IMGUI.DLL"), "lje-imgui");
}

#[test]
fn display_name_keeps_other_names() {
    assert_eq!(display_name("Readme.TXT"), "Readme.TXT");
    assert_eq!(display_name("LJE-X.DLL.DISABLED"), "lje-x");
}

#[test]
fn binary_info_reads_state_from_file_name() {
    let b = binary_info("LJE-FFI.dll.disabled", r"C:\b\LJE-FFI.dll.disabled").unwrap();
    assert_eq!(b.name, "lje-ffi");
    assert!(!b.enabled);
    assert_eq!(b.path, r"C:\b\LJE-FFI.dll.disabled");

    let b = binary_info("lje-imgui.dll", r"C:\b\lje-imgui.dll").unwrap();
    assert_eq!(b.name, "lje-imgui");
    assert!(b.enabled);

    assert!(binary_info("notes.txt", r"C:\b\notes.txt").is_none());
}

#[test]
fn collect_binaries_filters_and_sorts() {
    let files = vec![
        ("lje-zeta.dll".to_string(), "/b/lje-zeta.dll".to_string()),
        ("notes.txt".to_string(), "/b/notes.txt".to_string()),
        ("lje-alpha.dll.disabled".to_string(), "/b/lje-alpha.dll.disabled".to_string()),
        ("lje-mid.DLL".to_string(), "/b/lje-mid.DLL".to_string()),
    ];
    let found = collect_binaries(&files);
    let names: Vec<&str> = found.iter().map(|b| b.name.as_str()).collect();
    assert_eq!(names, vec!["lje-alpha", "lje-mid", "lje-zeta"]);
    let enabled: Vec<bool> = found.iter().map(|b| b.enabled).collect();
    assert_eq!(enabled, vec![false, true, true]);
    assert_eq!(found[0].path, "/b/lje-alpha.dll.disabled");
}

#[test]
fn collect_binaries_of_nothing() {
    assert!(collect_binaries(&Vec::new()).is_empty());
}

#[test]
fn binary_files_from_either_name() {
    assert_eq!(
        binary_files(r"C:\b\lje-ffi.dll"),
        (r"C:\b\lje-ffi.dll".to_string(), r"C:\b\lje-ffi.dll.disabled".to_string())
    );
    assert_eq!(
        binary_files(r"C:\b\lje-ffi.dll.disabled"),
        (r"C:\b\lje-ffi.dll".to_string(), r"C:\b\lje-ffi.dll.disabled".to_string())
    );
}

#[test]
fn binary_files_strips_suffix_in_any_case() {
    assert_eq!(
        binary_files("lje-a.DLL.DISABLED"),
        ("lje-a.DLL".to_string(), "lje-a.DLL.disabled".to_string())
    );
    assert_eq!(
        binary_files(r"D:\b\LJE-FFI.DLL.Disabled"),
        (r"D:\b\LJE-FFI.DLL".to_string(), r"D:\b\LJE-FFI.DLL.disabled".to_string())
    );
}

#[test]
fn lowered_name_decides() {
    assert!(is_binary_lower("lje-ffi.dll"));
    assert!(is_binary_lower("lje-ffi.dll.disabled"));
    assert!(!is_binary_lower("LJE-FFI.DLL"));
    assert!(!is_binary_lower("lje-ffi.so"));
    assert_eq!(display_name_from("LJE-FFI.DLL", "lje-ffi.dll"), "lje-ffi");
    assert_eq!(display_name_from("Notes.TXT", "notes.txt"), "Notes.TXT");
    let b = binary_info_from("LJE-X.DLL.DISABLED", "lje-x.dll.disabled", "/b/LJE-X.DLL.DISABLED").unwrap();
    assert_eq!(b.name, "lje-x");
    assert!(!b.enabled);
    assert!(binary_info_from("x.dll", "x.dll", "/b/x.dll").is_none());
    assert_eq!(
        binary_files_from("/b/LJE-X.DLL.DISABLED", "/b/lje-x.dll.disabled"),
        ("/b/LJE-X.DLL".to_string(), "/b/LJE-X.DLL.disabled".to_string())
    );
    assert_eq!(
        binary_files_from("/b/lje-x.dll", "/b/lje-x.dll"),
        ("/b/lje-x.dll".to_string(), "/b/lje-x.dll.disabled".to_string())
    );
}
