use lje_launcher::vdf::{parse, VdfBlock, VdfTokenType, VdfTokenizer, VdfValue};

fn block<'a>(b: &'a VdfBlock, key: &str) -> &'a VdfBlock {
    b.get(key).expect("key present").as_block()
}

fn string<'a>(b: &'a VdfBlock, key: &str) -> &'a str {
    b.get(key).expect("key present").as_string()
}

#[test]
fn parses_tree() {
    let result = parse("\"root\" { \"hi\" \"hey\" }").unwrap();
    assert_eq!(string(block(&result, "root"), "hi"), "hey");
}

#[test]
fn parses_nested() {
    let result = parse(
        r#""root" {
"hi" {
"hey" "ho"
}
"bye" "see ya"
}"#,
    )
    .unwrap();
    assert_eq!(string(block(&result, "root"), "bye"), "see ya");
    assert_eq!(string(block(block(&result, "root"), "hi"), "hey"), "ho");
}

#[test]
fn parses_library_folders() {
    let vdf = r#""libraryfolders"
{
	"0"
	{
		"path"		"C:\\Program Files (x86)\\Steam"
		"apps"
		{
			"4000"		"1"
			"480"		"1"
		}
	}
	"1"
	{
		"path"		"D:\\SteamLibrary"
		"apps"
		{
			"4000"		"1"
		}
	}
}"#;
    let root = parse(vdf).unwrap();

    let folders = block(&root, "libraryfolders");
    let first = block(folders, "0");
    assert_eq!(string(first, "path"), r"C:\\Program Files (x86)\\Steam");
    assert_eq!(string(block(first, "apps"), "4000"), "1");
    assert_eq!(string(block(first, "apps"), "480"), "1");

    let second = block(folders, "1");
    assert_eq!(string(second, "path"), r"D:\\SteamLibrary");
    assert_eq!(string(block(second, "apps"), "4000"), "1");
    assert!(!block(second, "apps").contains_key("480"));
}

#[test]
fn tokenize_rejects_garbage() {
    let mut tokenizer = VdfTokenizer::new("\"a\" x");
    let err = tokenizer.tokenize().unwrap_err();
    assert_eq!(err, "unexpected character 'x' at position 4");
}

#[test]
fn parse_rejects_bad_root() {
    let err = parse("{}").unwrap_err();
    assert_eq!(err, "expected root string token");
}

#[test]
fn tokenize_reports_byte_positions() {
    // "é" takes two bytes and the ideographic space three, so the stray
    // character sits at byte 11.
    let mut tokenizer = VdfTokenizer::new("\"é\"\u{3000}{ } ?");
    assert_eq!(tokenizer.tokenize().unwrap_err(), "unexpected character '?' at position 11");
}

#[test]
fn tokenize_splits_strings_and_braces() {
    let mut tokenizer = VdfTokenizer::new(" \"k\"{\"v\" }\n");
    let tokens = tokenizer.tokenize().unwrap();
    let kinds: Vec<VdfTokenType> = tokens.iter().map(|t| t.token_type).collect();
    assert_eq!(
        kinds,
        vec![VdfTokenType::String, VdfTokenType::BraceStart, VdfTokenType::String, VdfTokenType::BraceEnd]
    );
    let values: Vec<&str> = tokens.iter().map(|t| t.value.as_str()).collect();
    assert_eq!(values, vec!["k", "{", "v", "}"]);
}

#[test]
fn tokenize_rejects_open_string() {
    let mut tokenizer = VdfTokenizer::new("\"root\" \"abc");
    assert_eq!(tokenizer.tokenize().unwrap_err(), "unterminated string");
}

#[test]
fn parse_rejects_string_before_close() {
    assert_eq!(parse("\"a\" }").unwrap_err(), "unexpected token BraceEnd after string");
}

#[test]
fn parse_rejects_dangling_key() {
    assert_eq!(parse("\"a\" \"b\" \"c\"").unwrap_err(), "unexpected end of tokens after string");
}

#[test]
fn parse_rejects_close_at_root() {
    assert_eq!(parse("\"a\" \"b\" }").unwrap_err(), "unexpected closing brace at root level");
}

#[test]
fn later_key_replaces_earlier() {
    let root = parse("\"a\" \"1\" \"b\" \"2\" \"a\" \"3\"").unwrap();
    assert_eq!(string(&root, "a"), "3");
    assert_eq!(string(&root, "b"), "2");
    assert_eq!(root.len(), 2);
}

#[test]
fn unclosed_block_is_rejected() {
    assert_eq!(
        parse("\"root\" { \"a\" \"b\"").unwrap_err(),
        "unexpected end of tokens inside a block"
    );
    assert_eq!(
        parse("\"r\" { \"k\" { \"x\" \"y\" }").unwrap_err(),
        "unexpected end of tokens inside a block"
    );
}

#[test]
fn stray_open_brace_is_ignored() {
    let root = parse("\"a\" \"b\" { \"c\" \"d\"").unwrap();
    assert_eq!(string(&root, "a"), "b");
    assert_eq!(string(&root, "c"), "d");
}

#[test]
fn rendered_document_reads_back() {
    // One token per line, as the document law renders it.
    let text = "\"top\"\n{\n\"x\"\n\"1\"\n\"inner\"\n{\n\"y\"\n\"2\"\n}\n}\n\"z\"\n\"3\"\n";
    let root = parse(text).unwrap();
    assert_eq!(string(block(&root, "top"), "x"), "1");
    assert_eq!(string(block(block(&root, "top"), "inner"), "y"), "2");
    assert_eq!(string(&root, "z"), "3");
    assert!(matches!(root.get("top"), Some(VdfValue::Block(_))));
}

#[test]
fn layout_does_not_change_the_parse() {
    let tight = parse("\"a\"{\"b\"\"c\"\"d\"{\"e\"\"f\"}}").unwrap();
    let loose = parse("\n\t \"a\"  {\r\n \"b\" \u{3000}\"c\" \"d\"{ \"e\"\t\"f\" } }  \n").unwrap();
    assert_eq!(string(block(&tight, "a"), "b"), "c");
    assert_eq!(string(block(block(&tight, "a"), "d"), "e"), "f");
    assert_eq!(string(block(&loose, "a"), "b"), "c");
    assert_eq!(string(block(block(&loose, "a"), "d"), "e"), "f");
}

#[test]
fn space_joined_tokens_read_back() {
    let mut first = VdfTokenizer::new("\"k\"\n{\n\"v w\"\n}");
    let tokens = first.tokenize().unwrap();
    let joined = tokens
        .iter()
        .map(|t| match t.token_type {
            VdfTokenType::String => format!("\"{}\"", t.value),
            _ => t.value.clone(),
        })
        .collect::<Vec<_>>()
        .join(" ");
    assert_eq!(joined, "\"k\" { \"v w\" }");
    let mut again = VdfTokenizer::new(&joined);
    let back = again.tokenize().unwrap();
    let values: Vec<&str> = back.iter().map(|t| t.value.as_str()).collect();
    assert_eq!(values, vec!["k", "{", "v w", "}"]);
}
