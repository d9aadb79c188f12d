use lje_launcher::locator::{gmod_libraries, library_folders};
use lje_launcher::vdf::parse;

#[test]
fn finds_libraries_with_gmod() {
    let vdf = r#""libraryfolders"
{
	"0"
	{
		"path"		"C:\\Program Files (x86)\\Steam"
		"apps"
		{
			"480"		"1"
		}
	}
	"1"
	{
		"path"		"D:\\SteamLibrary"
		"apps"
		{
			"4000"		"1"
		}
	}
	"2"
	{
		"apps"
		{
			"4000"		"1"
		}
	}
	"3"	"E:\\Loose"
	"4"
	{
		"path"		"F:\\Games"
		"apps"
		{
			"4000"		"1"
			"730"		"1"
		}
	}
}"#;
    let root = parse(vdf).unwrap();
    let folders = library_folders(&root).unwrap();
    assert_eq!(gmod_libraries(folders), vec![r"D:\\SteamLibrary".to_string(), r"F:\\Games".to_string()]);
}

#[test]
fn missing_library_folders() {
    let root = parse("\"other\" { \"a\" \"b\" }").unwrap();
    assert!(library_folders(&root).is_none());
}

#[test]
fn library_folders_as_string_is_none() {
    let root = parse("\"libraryfolders\" \"x\"").unwrap();
    assert!(library_folders(&root).is_none());
}
