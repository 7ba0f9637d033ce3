use vapour::vdf::{Vdf, VdfParser, VdfValue, write_entries};

fn b(s: &str) -> Vec<u8> {
    s.as_bytes().to_vec()
}

fn leaf(s: &str) -> VdfValue {
    VdfValue::Value(b(s))
}

fn node(entries: Vec<(&str, VdfValue)>) -> VdfValue {
    let mut m = Vdf::new();
    for (k, v) in entries {
        m.insert(b(k), v);
    }
    VdfValue::Node(m)
}

fn node_map(entries: Vec<(&str, VdfValue)>) -> Vdf {
    match node(entries) {
        VdfValue::Node(m) => m,
        _ => unreachable!(),
    }
}

#[test]
fn simple_vdf_parse_test() {
    let s = r#"
"libraryfolders"
{
	"0"
	{
		"path"		"/home"
		"label"		""
		"contentid"		"0"
		"totalsize"		"0"
		"update_clean_bytes_tally"		"0"
		"time_last_update_corruption"		"0"
		"apps"
		{
        }
    }
}"#;

    let vdf = VdfParser::from_str(s).parse_entries();
    let expected = node_map(vec![(
        "libraryfolders",
        node(vec![(
            "0",
            node(vec![
                ("path", leaf("/home")),
                ("label", leaf("")),
                ("contentid", leaf("0")),
                ("totalsize", leaf("0")),
                ("update_clean_bytes_tally", leaf("0")),
                ("time_last_update_corruption", leaf("0")),
                ("apps", node(vec![])),
            ]),
        )]),
    )]);
    assert_eq!(vdf, Some(expected));
}

#[test]
fn empty_input_parses_to_empty_mapping() {
    let vdf = VdfParser::from_str("").parse_entries();
    assert_eq!(vdf, Some(Vdf::new()));
    let vdf = VdfParser::from_str("  \n\t ").parse_entries();
    assert_eq!(vdf, Some(Vdf::new()));
}

#[test]
fn empty_map_value_parses_to_empty_node() {
    let mut p = VdfParser::from_str("{}");
    let v = p.parse_value();
    assert_eq!(v, Some(node(vec![])));
}

#[test]
fn unterminated_input_fails_whole_parse() {
    // A malformed entry must fail the entire call, not yield a partial tree.
    let vdf = VdfParser::from_str(r#""a" { "b""#).parse_entries();
    assert_eq!(vdf, None);
}

#[test]
fn dangling_open_brace_fails() {
    assert_eq!(VdfParser::from_str(r#""k" {"#).parse_entries(), None);
    assert_eq!(VdfParser::from_str("{").parse_entries(), None);
    assert_eq!(VdfParser::from_str(r#""k""#).parse_entries(), None);
}

#[test]
fn stray_closing_brace_fails() {
    // Unbalanced braces make the whole file unusable, a stray closer too.
    assert_eq!(VdfParser::from_str("}").parse_entries(), None);
    assert_eq!(VdfParser::from_str(r#""a" "1" }"#).parse_entries(), None);
    assert_eq!(VdfParser::from_str(r#""a" { "b" "2" } }"#).parse_entries(), None);
}

#[test]
fn parse_map_restores_position_on_failure() {
    // Backtracking: a failed map attempt leaves the position exactly where
    // it was before the attempt, even after consuming tokens inside.
    let mut p = VdfParser::from_str(r#"  { "a" "1" "#);
    let before = p.pos;
    assert_eq!(p.parse_map(), None);
    assert_eq!(p.pos, before);

    let mut p = VdfParser::from_str(r#"{ "a" oops }"#);
    let before = p.pos;
    assert_eq!(p.parse_map(), None);
    assert_eq!(p.pos, before);
}

#[test]
fn parsing_twice_yields_equal_trees() {
    let s = r#""a" "1" "m" { "x" "y" }"#;
    let first = VdfParser::from_str(s).parse_entries();
    let second = VdfParser::from_str(s).parse_entries();
    assert!(first.is_some());
    assert_eq!(first, second);
}

#[test]
fn duplicate_key_last_wins() {
    let vdf = VdfParser::from_str(r#""a" "1" "a" "2""#).parse_entries().unwrap();
    assert_eq!(vdf, node_map(vec![("a", leaf("2"))]));
}

#[test]
fn write_then_parse_round_trips() {
    let tree = node_map(vec![
        ("alpha", leaf("one")),
        ("beta", node(vec![("inner", leaf("x")), ("empty", node(vec![]))])),
        ("gamma", leaf("")),
    ]);
    let text = write_entries(&tree, Vec::new());
    let mut p = VdfParser {
        s: text,
        pos: 0,
    };
    let reparsed = p.parse_entries();
    assert_eq!(reparsed, Some(tree));
}

#[test]
fn tokens_and_strings_parse() {
    let mut p = VdfParser::from_str("  \t x");
    assert_eq!(p.split_char(), Some((b'x', 5)));

    let mut q = VdfParser::from_str("  {rest");
    assert_eq!(q.parse_char(b'{'), Some(()));
    assert_eq!(q.parse_char(b'{'), None);

    let mut r = VdfParser::from_str(r#"  "hello" tail"#);
    assert_eq!(r.parse_lit_str(), Some(b"hello".to_vec()));

    let mut t = VdfParser::from_str(r#""unterminated"#);
    let before = t.pos;
    assert_eq!(t.parse_lit_str(), None);
    assert_eq!(t.pos, before);
}

#[test]
fn parse_entry_and_value() {
    let mut p = VdfParser::from_str(r#""k" "v""#);
    assert_eq!(p.parse_entry(), Some((b"k".to_vec(), leaf("v"))));

    let mut q = VdfParser::from_str(r#"{ "a" "1" }"#);
    assert_eq!(q.parse_value(), Some(node(vec![("a", leaf("1"))])));
}

#[test]
fn vdf_get_and_as_accessors() {
    let m = node_map(vec![("a", leaf("1")), ("b", node(vec![]))]);
    assert_eq!(m.get(b"a"), Some(&leaf("1")));
    assert_eq!(m.get(b"missing"), None);
    assert_eq!(m.len(), 2);
    assert_eq!(leaf("1").as_value(), Some(&b("1")));
    assert_eq!(leaf("1").as_map(), None);
    let n = node(vec![]);
    assert!(n.as_map().is_some());
    assert_eq!(n.as_value(), None);
}
