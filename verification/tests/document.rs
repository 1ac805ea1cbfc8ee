use slr_config::{ConfigElement, ErrorKind, Source};

fn value_of<'a>(root: &'a ConfigElement, key: &str) -> &'a str {
    root.as_table().unwrap().get(key).unwrap().as_value().unwrap().as_str()
}

#[test]
fn basic_test() {
    let mut root = ConfigElement::new_table();
    let val = ConfigElement::new_value("warudo");
    root.insert("za", val);
    assert!(root.as_table().is_some());
    assert!(root.as_table().unwrap().get("za").unwrap().as_value().is_some());
    assert_eq!(root.as_table().unwrap().get("za").unwrap().as_value().unwrap(), "warudo");
}

#[test]
fn basic_printing_test() {
    let mut root = ConfigElement::new_table();
    let val = ConfigElement::new_value("warudo");
    root.insert("za", val);
    assert_eq!(root.to_string(), "za = warudo\n");
}

#[test]
fn basic_parsing_test() {
    let root = ConfigElement::from_str("za = warudo").unwrap();
    assert!(root.as_table().is_some());
    assert!(root.as_table().unwrap().get("za").unwrap().as_value().is_some());
    assert_eq!(root.as_table().unwrap().get("za").unwrap().as_value().unwrap(), "warudo");
}

#[test]
fn init_test() {
    let mut root = ConfigElement::new_table();
    root.insert("za", ConfigElement::new_value("warudo"));
    root.from_str_with_init("what = $za").unwrap();
    assert_eq!(root.as_table().unwrap().get("what").unwrap().as_value().unwrap(), "warudo");
}

#[test]
fn roundtrip_test() {
    let src = r#"
# Comment
val1 = {{{" "}}a"}}}
val2 = b ~ c d
r0 = ""
r2 = ""
r2 = {{""}}
r3 = {{"a"}}
r4 = {{"aa"}}
r5 = {{"""}}
r6 = {{""}"}}
r7 = {{{""}}"}}}

arr1 = []
arr3 = [a]
arr2 = [[], {}]

tag1 = a {}
tag2 = a { a = 2 }
tag3 = [a {}, b {}]

taga1 = a []
taga2 = a [1, 2]
taga3 = [a [1], b [2]]

foo2 = [a]

foo2 = test

bar
{
	bar_foo = test ~ baz
	bar_bar
	{
		foo
		{
			"bar	bar1" = ["\ttest"]
			bar bar2 = [test,]
			bar bar3 = [test,test]
			bar bar4 = []
		}
	}
}

baz
{
	bar_bar
	{
		foo = ""
		bar = "\u0021d"
	}
}
"#;
    let first = ConfigElement::from_str(src).unwrap();
    assert_eq!(first.as_table().unwrap().get("foo2").unwrap().as_value().unwrap(), "test");
    let first_text = first.to_string();
    let decoded = ConfigElement::from_str(&first_text).unwrap();
    let second_text = decoded.to_string();
    assert_eq!(first_text, second_text);
}

#[test]
fn unicode_encode_test() {
    for i in 0..1000u32 {
        let s = format!("{}", char::from_u32(i).unwrap());
        let mut root = ConfigElement::new_table();
        root.insert("test", ConfigElement::new_value(&s));
        let encoded = root.to_string();
        println!("Encoding: {} |{}|\n{}", i, s, encoded);
        let decoded = ConfigElement::from_str(&encoded).map_err(|e| println!("{}", e.text)).unwrap();
        assert_eq!(&s, decoded.as_table().unwrap().get("test").unwrap().as_value().unwrap());
    }
}

#[test]
fn expand_test() {
    let src = r#"
val = "a"
arr = []
tab {}

val_test = $val ~ $val
arr_test = $arr
tab_test = $tab

tab2
{
	tab = "b"
	val_test2 = $tab
}
"#;
    let root = ConfigElement::from_str(src).unwrap();
    let root = root.as_table().unwrap();
    assert!(root.get("val_test").unwrap().as_value().is_some());
    assert!(root.get("val_test").unwrap().as_value().unwrap() == "aa");
    assert!(root.get("arr_test").unwrap().as_array().is_some());
    assert!(root.get("tab_test").unwrap().as_table().is_some());
    assert!(root.get("tab2").unwrap().as_table().unwrap().get("val_test2").unwrap().as_value().is_some());
}

#[test]
fn roundtrip_prints_expected_layout() {
    let src = "a = 1\nt { x = 1, y = [p, q] }\ne {}\nn = [[1], {k = v}]\ng = Tag { z = 2 }\nh = Tag [1, 2]\n";
    let root = ConfigElement::from_str(src).unwrap();
    let text = root.to_string();
    let expected = "a = 1\nt\n{\n\tx = 1\n\ty = [p, q]\n}\ne {}\nn =\n[\n\t[1],\n\t{\n\t\tk = v\n\t}\n]\ng = Tag\n{\n\tz = 2\n}\nh = Tag [1, 2]\n";
    assert_eq!(text, expected);
    let again = ConfigElement::from_str(&text).unwrap();
    assert_eq!(again.to_string(), text);
}

#[test]
fn innermost_scope_wins() {
    let root = ConfigElement::from_str("a = 1\nb { a = 2, c = $a }").unwrap();
    let b = root.as_table().unwrap().get("b").unwrap();
    assert_eq!(value_of(b, "c"), "2");
    assert_eq!(value_of(&root, "a"), "1");
}

#[test]
fn self_reference_takes_outer_value() {
    let root = ConfigElement::from_str("a = 1\nb { a = $a }").unwrap();
    let b = root.as_table().unwrap().get("b").unwrap();
    assert_eq!(value_of(b, "a"), "1");
}

#[test]
fn self_reference_without_outer_value_is_not_found() {
    let err = ConfigElement::from_str("a = $a").unwrap_err();
    assert_eq!(err.kind, ErrorKind::NotFound);
    assert_eq!(
        err.text,
        "<anon>:1:5-1:5: error: Could not find an element named `a`\na = $a\n     ^\n"
    );
}

#[test]
fn tag_round_trip() {
    let root = ConfigElement::from_str("foo = Bar { x = 1 }").unwrap();
    let foo = root.as_table().unwrap().get("foo").unwrap();
    assert_eq!(foo.tag().unwrap(), "Bar");
    assert_eq!(value_of(foo, "x"), "1");
    let text = root.to_string();
    assert_eq!(text, "foo = Bar\n{\n\tx = 1\n}\n");
    let again = ConfigElement::from_str(&text).unwrap();
    let foo = again.as_table().unwrap().get("foo").unwrap();
    assert_eq!(foo.tag().unwrap(), "Bar");
    assert_eq!(value_of(foo, "x"), "1");
    assert_eq!(again.to_string(), text);
}

#[test]
fn concatenation_of_references() {
    let root = ConfigElement::from_str("val = \"a\"\narr = []\nval_test = $val ~ $val").unwrap();
    assert_eq!(value_of(&root, "val_test"), "aa");
}

#[test]
fn quoting_forms_decode_alike() {
    for text in ["x = \"a\"", "x = {\"a\"}", "x = {{\"a\"}}", "x = a"] {
        let root = ConfigElement::from_str(text).unwrap();
        assert_eq!(value_of(&root, "x"), "a");
        assert_eq!(root.to_string(), "x = a\n");
    }
}

#[test]
fn unicode_escape_in_document() {
    let root = ConfigElement::from_str("x = \"\\u0041\"\ny = \"\\uD800\"\nz = \"\\u00zz\"\nw = {{\"\\u0041\"}}").unwrap();
    assert_eq!(value_of(&root, "x"), "A");
    assert_eq!(value_of(&root, "y"), "\u{FFFD}");
    assert_eq!(value_of(&root, "z"), "\u{FFFD}");
    assert_eq!(value_of(&root, "w"), "\\u0041");
}

#[test]
fn last_write_wins_and_keeps_place() {
    let root = ConfigElement::from_str("a = 1\nb = 2\na = 3").unwrap();
    let table = root.as_table().unwrap();
    assert_eq!(table.len(), 2);
    assert_eq!(table.key_at(0), "a");
    assert_eq!(table.value_at(0).as_value().unwrap(), "3");
    assert_eq!(table.key_at(1), "b");
    assert_eq!(root.to_string(), "a = 3\nb = 2\n");
}

#[test]
fn reference_into_array_by_index() {
    let root = ConfigElement::from_str("arr = [x, y, $1, $+0, $2]").unwrap();
    let arr = root.as_table().unwrap().get("arr").unwrap().as_array().unwrap();
    let got: Vec<&str> = arr.iter().map(|e| e.as_value().unwrap().as_str()).collect();
    assert_eq!(got, vec!["x", "y", "y", "x", "y"]);
}

#[test]
fn reference_out_of_range_is_not_found() {
    let err = ConfigElement::from_str("arr = [x, $7]").unwrap_err();
    assert_eq!(err.kind, ErrorKind::NotFound);
    let err = ConfigElement::from_str("arr = [x, $99999999999999999999999999]").unwrap_err();
    assert_eq!(err.kind, ErrorKind::NotFound);
}

#[test]
fn expansion_copies_whole_elements() {
    let root = ConfigElement::from_str("t { a = 1 }\nu = $t\nv = [$t, $u]").unwrap();
    assert_eq!(root.to_string(), "t\n{\n\ta = 1\n}\nu\n{\n\ta = 1\n}\nv =\n[\n\t{\n\t\ta = 1\n\t},\n\t{\n\t\ta = 1\n\t}\n]\n");
}

#[test]
fn builder_errors() {
    let cases = [
        ("t {}\nx = a ~ $t", "Cannot append a table to a value"),
        ("t = T {}\nx = a ~ $t", "Cannot append a tagged table to a value"),
        ("t = []\nx = a ~ $t", "Cannot append an array to a value"),
        ("t = T []\nx = a ~ $t", "Cannot append an tagged array to a value"),
        ("t {}\nx = $t ~ $t", "Cannot append to a table"),
        ("t = T {}\nx = $t ~ $t", "Cannot append to a tagged table"),
        ("t = []\nx = $t ~ $t", "Cannot append to an array"),
        ("t = T []\nx = $t ~ $t", "Cannot append to a tagged array"),
        ("t {}\nx = $t ~ a", "Cannot append a string to a table"),
        ("t = T {}\nx = $t ~ a", "Cannot append a string to a tagged table"),
        ("t = []\nx = $t ~ a", "Cannot append a string to an array"),
        ("t = T []\nx = $t ~ a", "Cannot append a string to a tagged array"),
        ("x = \"\" {}", "A tag cannot be empty"),
        ("x = \"\" []", "A tag cannot be empty"),
    ];
    for (text, message) in cases {
        let err = ConfigElement::from_str(text).unwrap_err();
        assert_eq!(err.kind, ErrorKind::ParseFailure, "{}", text);
        assert!(err.text.contains(&format!("error: {}\n", message)), "{} gave {}", text, err.text);
    }
}

#[test]
fn grammar_errors() {
    let cases = [
        ("a", "<anon>:1:0-1:0: error: Expected '=' or '{' to follow, but got EOF\na\n^\n"),
        ("a = ", "<anon>:1:2-1:2: error: Expected '[' or a string to follow, but got EOF\na = \n  ^\n"),
        ("a = ]", "<anon>:1:4-1:4: error: Expected '[' or a string\na = ]\n    ^\n"),
        ("a ]", "<anon>:1:2-1:2: error: Expected '=' or '{'\na ]\n  ^\n"),
        ("a {", "<anon>:1:2-1:2: error: Unterminated table\na {\n  ^\n"),
        ("a = [", "<anon>:1:4-1:4: error: Unterminated array\na = [\n    ^\n"),
        ("a { = }", "<anon>:1:4-1:4: error: Expected '}', ',' or a string\na { = }\n    ^\n"),
        ("a { b = 1,, }", "<anon>:1:10-1:10: error: Expected '}' or a string\na { b = 1,, }\n          ^\n"),
        ("a = [=]", "<anon>:1:5-1:5: error: Expected ']', ',' or a string\na = [=]\n     ^\n"),
        ("a = [b,,]", "<anon>:1:7-1:7: error: Expected ']' or a string\na = [b,,]\n       ^\n"),
        ("a = b ~", "<anon>:1:6-1:6: error: Expected a string or '$' to follow, but got EOF\na = b ~\n      ^\n"),
        ("a = b ~ ]", "<anon>:1:6-1:6: error: Expected a string or '$' to follow, but got EOF\na = b ~ ]\n      ^\n"),
        ("a = $", "<anon>:1:4-1:4: error: Expected a string to follow, but got EOF\na = $\n    ^\n"),
        ("a = $]", "<anon>:1:5-1:5: error: Expected a string\na = $]\n     ^\n"),
        ("a = b\n]", "<anon>:2:0-2:0: error: Expected a string\n]\n^\n"),
        ("\tabc\t= [\"x\" \"y\" wrong = ]", "<anon>:1:22-1:22: error: Expected ']', ',' or a string\n    abc    = [\"x\" \"y\" wrong = ]\n                            ^\n"),
    ];
    for (text, expected) in cases {
        let err = ConfigElement::from_str(text).unwrap_err();
        assert_eq!(err.kind, ErrorKind::ParseFailure, "{}", text);
        assert_eq!(err.text, expected, "{}", text);
    }
}

#[test]
fn lexical_errors() {
    let err = ConfigElement::from_str("a = \"abc").unwrap_err();
    assert_eq!(err.kind, ErrorKind::ParseFailure);
    assert_eq!(err.text, "<anon>:1:4: error: Unterminated quoted string literal\na = \"abc\n    ^\n");
    let err = ConfigElement::from_str("a = {{\"abc\"}").unwrap_err();
    assert_eq!(err.text, "<anon>:1:4: error: Unterminated quoted string literal\na = {{\"abc\"}\n    ^\n");
    let err = ConfigElement::from_str("a = b\\").unwrap_err();
    assert_eq!(err.text, "<anon>:1:6: error: Unexpected EOF while parsing escape in string literal\na = b\\\n      ^\n");
}

#[test]
fn quoted_string_may_end_the_text() {
    let root = ConfigElement::from_str("a = \"b\"").unwrap();
    assert_eq!(value_of(&root, "a"), "b");
    let root = ConfigElement::from_str("a = {{\"b\"}}").unwrap();
    assert_eq!(value_of(&root, "a"), "b");
}

#[test]
fn commas_between_elements_are_optional() {
    let root = ConfigElement::from_str("a = [\"x\" \"y\", [1] [2]]\nt { p = \"1\" q = 2, r = 3 }").unwrap();
    assert_eq!(root.to_string(), "a = [x, y, [1], [2]]\nt\n{\n\tp = 1\n\tq = 2\n\tr = 3\n}\n");
}

#[test]
fn table_element_may_be_a_tagged_table_without_assign() {
    let root = ConfigElement::from_str("\"a\" \"T\" { x = 1 }").unwrap();
    let a = root.as_table().unwrap().get("a").unwrap();
    assert_eq!(a.tag().unwrap(), "T");
    assert_eq!(value_of(a, "x"), "1");
}

#[test]
fn spaces_join_only_between_border_characters() {
    let root = ConfigElement::from_str("key one = a b\nkey two = [c d, e  f]").unwrap();
    assert_eq!(value_of(&root, "key one"), "a b");
    let arr = root.as_table().unwrap().get("key two").unwrap().as_array().unwrap();
    let got: Vec<&str> = arr.iter().map(|e| e.as_value().unwrap().as_str()).collect();
    assert_eq!(got, vec!["c d", "e", "f"]);
}

#[test]
fn escapes_in_naked_strings() {
    let root = ConfigElement::from_str("a = x\\ny\nb = \\$z\nc = \\u0041\\t!").unwrap();
    assert_eq!(value_of(&root, "a"), "x\ny");
    assert_eq!(value_of(&root, "b"), "\u{FFFD}z");
    assert_eq!(value_of(&root, "c"), "A\t!");
}

#[test]
fn from_source_reports_the_file() {
    let source = Source::new("conf/main.slr", "a = 1\nb = $c\n");
    let err = ConfigElement::from_source(&source).unwrap_err();
    assert_eq!(err.kind, ErrorKind::NotFound);
    assert_eq!(err.text, "conf/main.slr:2:5-2:5: error: Could not find an element named `c`\nb = $c\n     ^\n");
    assert_eq!(err.to_string(), err.text);
    let source = Source::new("ok", "a = 1");
    let root = ConfigElement::from_source(&source).unwrap();
    assert_eq!(root.to_string(), "a = 1\n");
}

#[test]
fn failed_update_leaves_an_empty_table() {
    let mut root = ConfigElement::new_table();
    root.insert("a", ConfigElement::new_value("1"));
    assert!(root.from_str_with_init("b = $zz").is_err());
    assert_eq!(root.as_table().unwrap().len(), 0);
}

#[test]
fn spans_of_parsed_elements() {
    let root = ConfigElement::from_str("é = ab ~ cd\nt { }").unwrap();
    let table = root.as_table().unwrap();
    let v = table.get("é").unwrap();
    assert!(v.span().is_valid());
    assert_eq!(v.span().start, 5);
    assert_eq!(v.span().len, 7);
    let t = table.get("t").unwrap();
    assert_eq!(t.span().start, 15);
    assert_eq!(t.span().len, 1);
    assert!(!root.span().is_valid());
}

#[test]
fn accessors_tell_the_kinds_apart() {
    let mut arr = ConfigElement::new_multi_line_array();
    arr.insert("ignored", ConfigElement::new_value("x"));
    arr.insert("ignored", ConfigElement::new_value("y"));
    assert!(arr.as_table().is_none());
    assert!(arr.as_value().is_none());
    assert!(arr.tag().is_none());
    assert_eq!(arr.as_array().unwrap().len(), 2);
    let mut root = ConfigElement::new_table();
    root.insert("a", arr.clone());
    root.insert("t", ConfigElement::new_tagged_table("T".to_string()));
    root.insert("u", ConfigElement::new_tagged_array("U".to_string()));
    root.insert("w", ConfigElement::new_multi_line_tagged_array("W".to_string()));
    root.insert("e", ConfigElement::new_array());
    assert_eq!(root.to_string(), "a =\n[\n\tx,\n\ty\n]\nt = T {}\nu = U []\nw = W []\ne = []\n");
    assert_eq!(root.as_table().unwrap().get("t").unwrap().tag().unwrap(), "T");
    assert!(root.as_table().unwrap().contains_key("u"));
    assert!(!root.as_table().unwrap().contains_key("zz"));
    assert!(root.as_table().unwrap().get("zz").is_none());
    assert_eq!(arr.into_array().unwrap().len(), 2);
    assert_eq!(ConfigElement::new_value("v").into_value().unwrap(), "v");
    assert_eq!(root.into_table().unwrap().len(), 5);
}

#[test]
fn mutable_accessors_change_the_tree() {
    let mut root = ConfigElement::from_str("a = 1\nt = T { x = 1 }\narr = [p]").unwrap();
    assert!(root.as_value_mut().is_none());
    assert!(root.as_array_mut().is_none());
    assert!(root.tag_mut().is_none());
    {
        let table = root.as_table_mut().unwrap();
        table.get_mut("a").unwrap().as_value_mut().unwrap().push_str("0");
        assert!(table.get_mut("zz").is_none());
        let t = table.get_mut("t").unwrap();
        t.tag_mut().unwrap().push_str("ag");
        t.as_table_mut().unwrap().insert("y".to_string(), ConfigElement::new_value("2"));
        let arr = table.get_mut("arr").unwrap();
        assert!(arr.as_table_mut().is_none());
        arr.as_array_mut().unwrap().push(ConfigElement::new_value("q"));
        *table.get_mut("arr").unwrap().as_array_mut().unwrap()[0].kind_mut() =
            slr_config::ConfigElementKind::Value("first".to_string());
    }
    assert_eq!(
        root.to_string(),
        "a = 10\nt = Tag\n{\n\tx = 1\n\ty = 2\n}\narr = [first, q]\n"
    );
    assert!(matches!(root.kind(), slr_config::ConfigElementKind::Table(_)));
}
