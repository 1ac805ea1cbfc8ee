use slr_config::chars::{is_newline, is_string_border, is_string_middle, is_whitespace};
use slr_config::{
    get_string_quote_type, hex_to_char, ConfigString, Error, ErrorKind, Lexer, Printer, Source, Span,
    StringKind, StringQuoteType, TokenKind,
};

fn kinds(text: &str) -> Vec<String> {
    let source = Source::new("<test>", text);
    let mut lexer = Lexer::new(&source);
    let mut out = vec![];
    loop {
        match lexer.next() {
            Some(Ok(tok)) => out.push(match tok.kind {
                TokenKind::EscapedString(s) => format!("E({})", s),
                TokenKind::RawString(s) => format!("R({})", s),
                TokenKind::Assign => "=".to_string(),
                TokenKind::LeftBracket => "[".to_string(),
                TokenKind::RightBracket => "]".to_string(),
                TokenKind::LeftBrace => "{".to_string(),
                TokenKind::RightBrace => "}".to_string(),
                TokenKind::Dollar => "$".to_string(),
                TokenKind::Comma => ",".to_string(),
                TokenKind::Tilde => "~".to_string(),
                TokenKind::Eof => "EOF".to_string(),
            }),
            Some(Err(e)) => {
                out.push(format!("!{}", e.text));
                break;
            }
            None => break,
        }
    }
    out
}

#[test]
fn whitespace_is_the_unicode_property() {
    for n in 0..=0x10FFFFu32 {
        if let Some(c) = char::from_u32(n) {
            assert_eq!(is_whitespace(c), c.is_whitespace(), "U+{:04X}", n);
        }
    }
}

#[test]
fn character_classes() {
    for c in ['=', '[', ']', '{', '}', '$', ',', '~', '"', '#', ' ', '\t', '\n', '\u{3000}'] {
        assert!(!is_string_border(c), "{:?}", c);
    }
    for c in ['a', '\\', '0', '-', '.', '/', 'é', '\0', '\''] {
        assert!(is_string_border(c), "{:?}", c);
        assert!(is_string_middle(c), "{:?}", c);
    }
    assert!(is_string_middle(' '));
    assert!(!is_string_middle('\t'));
    assert!(is_newline('\n'));
    assert!(!is_newline('\r'));
}

#[test]
fn tokens_of_every_kind() {
    assert_eq!(
        kinds("a = [ ] { } $ , ~ \"q\" {{\"r\"}} # tail\nlast"),
        vec!["E(a)", "=", "[", "]", "{", "}", "$", ",", "~", "E(q)", "R(r)", "E(last)"]
    );
}

#[test]
fn comments_and_blank_text() {
    assert!(kinds("").is_empty());
    assert!(kinds("  \n\t # only a comment").is_empty());
    assert_eq!(kinds("# c\n#d\n x#y\nz"), vec!["E(x)", "E(z)"]);
}

#[test]
fn naked_strings_take_single_inner_spaces() {
    assert_eq!(kinds("bar bar2"), vec!["E(bar bar2)"]);
    assert_eq!(kinds("a b c "), vec!["E(a b c)"]);
    assert_eq!(kinds("a  b"), vec!["E(a)", "E(b)"]);
    assert_eq!(kinds("a =b"), vec!["E(a)", "=", "E(b)"]);
    assert_eq!(kinds("a\tb"), vec!["E(a)", "E(b)"]);
    assert_eq!(kinds("a\\ \\=b"), vec!["E(a\\ \\=b)"]);
}

#[test]
fn brace_counted_quotes() {
    assert_eq!(kinds("\"a\""), vec!["E(a)"]);
    assert_eq!(kinds("{\"a\"}"), vec!["R(a)"]);
    assert_eq!(kinds("{{\"a\"}}"), vec!["R(a)"]);
    assert_eq!(kinds("{{\"a\"}\"}}"), vec!["R(a\"})"]);
    assert_eq!(kinds("{{\"a\"}}}"), vec!["R(a)", "}"]);
    assert_eq!(kinds("\"a\\\"b\""), vec!["E(a\\)", "E(b)", "!<test>:1:5: error: Unterminated quoted string literal\n\"a\\\"b\"\n     ^\n"]);
    assert_eq!(kinds("{{ x"), vec!["{", "{", "E(x)"]);
    assert_eq!(kinds("{ \"a\" }"), vec!["{", "E(a)", "}"]);
    assert_eq!(kinds("\"\""), vec!["E()"]);
}

#[test]
fn kinds_compare_by_what_they_hold() {
    let source = Source::new("f", "a = \"a\" {{\"a\"}} ]");
    let mut lexer = Lexer::new(&source);
    let first = lexer.next().unwrap().unwrap();
    assert_eq!(first.kind, TokenKind::EscapedString("a".to_string()));
    assert_eq!(lexer.next().unwrap().unwrap().kind, TokenKind::Assign);
    let quoted = lexer.next().unwrap().unwrap();
    assert_eq!(quoted.kind, first.kind);
    assert_eq!(quoted.clone().kind, first.kind);
    let raw = lexer.next().unwrap().unwrap();
    assert_eq!(raw.kind, TokenKind::RawString("a".to_string()));
    assert_ne!(raw.kind, first.kind);
    assert_ne!(lexer.next().unwrap().unwrap().kind, TokenKind::LeftBracket);
    let a = ConfigString::from_token(first);
    let b = ConfigString::from_token(raw);
    assert_eq!(a.kind, StringKind::EscapedString("a".to_string()));
    assert_ne!(a.kind, b.kind);
    assert_eq!(b.clone().kind, b.kind);
    assert_eq!(a.to_string(), b.to_string());
}

#[test]
fn lexer_stays_at_its_error() {
    let source = Source::new("f", "a \"b");
    let mut lexer = Lexer::new(&source);
    assert!(lexer.cur_token().is_none());
    assert!(matches!(lexer.next(), Some(Ok(_))));
    assert!(matches!(lexer.next_token(), Some(Err(_))));
    assert!(matches!(lexer.next(), Some(Err(_))));
    assert!(matches!(lexer.next(), Some(Err(_))));
    assert!(matches!(lexer.cur_token(), Some(Err(_))));
    assert_eq!(lexer.get_source().filename(), "f");
}

#[test]
fn token_spans_count_bytes() {
    let source = Source::new("f", "é = {{\"x\"}} ~\n$ ü ü");
    let mut lexer = Lexer::new(&source);
    let mut spans = vec![];
    while let Some(Ok(tok)) = lexer.next() {
        assert!(tok.kind.is_string() == matches!(tok.kind, TokenKind::EscapedString(_) | TokenKind::RawString(_)));
        spans.push((tok.span.start, tok.span.len));
    }
    assert_eq!(spans, vec![(0, 2), (3, 1), (5, 7), (13, 1), (15, 1), (17, 5)]);
}

#[test]
fn quote_types() {
    assert_eq!(get_string_quote_type("a"), StringQuoteType::Naked);
    assert_eq!(get_string_quote_type("a b"), StringQuoteType::Naked);
    assert_eq!(get_string_quote_type("é ü"), StringQuoteType::Naked);
    assert_eq!(get_string_quote_type(""), StringQuoteType::Quoted(3));
    assert_eq!(get_string_quote_type("a  b"), StringQuoteType::Quoted(3));
    assert_eq!(get_string_quote_type("a\tb"), StringQuoteType::Quoted(3));
    assert_eq!(get_string_quote_type(" a"), StringQuoteType::Quoted(3));
    assert_eq!(get_string_quote_type("a "), StringQuoteType::Quoted(3));
    assert_eq!(get_string_quote_type("a=b"), StringQuoteType::Quoted(3));
    assert_eq!(get_string_quote_type("a\\b"), StringQuoteType::Quoted(3));
    assert_eq!(get_string_quote_type("\""), StringQuoteType::Quoted(3));
    assert_eq!(get_string_quote_type("a\"b"), StringQuoteType::Quoted(3));
    assert_eq!(get_string_quote_type("a\"}b"), StringQuoteType::Quoted(3));
    assert_eq!(get_string_quote_type("a\"}}b"), StringQuoteType::Quoted(3));
    assert_eq!(get_string_quote_type("a\"}}}b"), StringQuoteType::Quoted(4));
    assert_eq!(get_string_quote_type("}}}}\"}\"}}}"), StringQuoteType::Quoted(4));
    assert_eq!(get_string_quote_type("\"}}}}}x\"}"), StringQuoteType::Quoted(6));
    assert_eq!(get_string_quote_type("}}}}"), StringQuoteType::Quoted(3));
}

#[test]
fn quoted_strings_are_written_between_braces() {
    let cases = [
        ("", "{{{\"\"}}}"),
        ("a=b", "{{{\"a=b\"}}}"),
        ("\"", "{{{\"\"\"}}}"),
        ("a\"}}b", "{{{\"a\"}}b\"}}}"),
        ("a\"}}}b", "{{{{\"a\"}}}b\"}}}}"),
        ("back\\slash", "{{{\"back\\slash\"}}}"),
    ];
    for (s, expected) in cases {
        let mut printer = Printer::new();
        printer.start_array(None, true);
        printer.value(None, s);
        printer.end_array();
        assert_eq!(printer.into_string(), format!("\n[{}]", expected), "{:?}", s);
        assert_eq!(kinds(expected), vec![format!("R({})", s)]);
    }
}

#[test]
fn printer_writes_what_reads_back() {
    for s in ["", "a", " ", "a b", "a  b", "\"", "\"}", "x\"}}\"}}}y", "\\", "\\n", "#", "{", "a\nb", "\u{A0}", "$x", "a,b", "a~b"] {
        let mut printer = Printer::new();
        printer.start_table(None, true, false);
        printer.value(Some(s), s);
        printer.end_table(true);
        let text = printer.into_string();
        let found = kinds(&text);
        assert_eq!(found.len(), 3, "{:?} printed as {:?}", s, text);
        let source = Source::new("t", &text);
        let mut lexer = Lexer::new(&source);
        let first = ConfigString::from_token(lexer.next().unwrap().unwrap());
        assert_eq!(first.to_string(), s);
        assert!(matches!(lexer.next().unwrap().unwrap().kind, TokenKind::Assign));
        let second = ConfigString::from_token(lexer.next().unwrap().unwrap());
        assert_eq!(second.to_string(), s);
        assert!(lexer.next().is_none());
    }
}

#[test]
fn printer_pieces() {
    let mut p = Printer::new();
    p.start_table(None, true, false);
    p.value(Some("a b"), "c\"d");
    p.start_array(Some("arr"), true);
    p.value(None, "1");
    p.start_tagged_table(None, "T", false, true);
    p.end_table(false);
    p.start_tagged_array(None, "U", true);
    p.value(None, "2");
    p.end_array();
    p.end_array();
    p.start_table(Some("t"), false, false);
    p.start_array(Some("deep"), false);
    p.value(None, "x");
    p.start_table(None, false, false);
    p.value(Some("k"), "");
    p.end_table(false);
    p.end_array();
    p.start_tagged_table(Some("tt"), "Tag", false, false);
    p.value(Some("z"), "9");
    p.end_table(false);
    p.start_tagged_array(Some("ta"), "Tag", false);
    p.end_array();
    p.end_table(false);
    p.end_table(true);
    assert_eq!(
        p.into_string(),
        "a b = {{{\"c\"d\"}}}\narr = [1, T {}, U [2]]\nt\n{\n\tdeep =\n\t[\n\t\tx,\n\t\t{\n\t\t\tk = {{{\"\"}}}\n\t\t}\n\t]\n\ttt = Tag\n\t{\n\t\tz = 9\n\t}\n\tta = Tag\n\t[]\n}\n"
    );
}

#[test]
fn hex_runs() {
    assert_eq!(hex_to_char("0041"), 'A');
    assert_eq!(hex_to_char("41"), 'A');
    assert_eq!(hex_to_char("e9"), 'é');
    assert_eq!(hex_to_char("E9"), 'é');
    assert_eq!(hex_to_char("0001F600"), '\u{1F600}');
    assert_eq!(hex_to_char("10FFFF"), '\u{10FFFF}');
    assert_eq!(hex_to_char("110000"), '\u{FFFD}');
    assert_eq!(hex_to_char("D800"), '\u{FFFD}');
    assert_eq!(hex_to_char("DFFF"), '\u{FFFD}');
    assert_eq!(hex_to_char("E000"), '\u{E000}');
    assert_eq!(hex_to_char("FFFFFFFF"), '\u{FFFD}');
    assert_eq!(hex_to_char("FFFFFFFFFFFFFFFFFFFF"), '\u{FFFD}');
    assert_eq!(hex_to_char(""), '\u{FFFD}');
    assert_eq!(hex_to_char("+041"), '\u{FFFD}');
    assert_eq!(hex_to_char("00g1"), '\u{FFFD}');
    assert_eq!(hex_to_char("0"), '\0');
}

fn decode(escaped: &str) -> String {
    let s = ConfigString { kind: StringKind::EscapedString(escaped.to_string()), span: Span::new() };
    s.to_string()
}

#[test]
fn escapes() {
    assert_eq!(decode("plain"), "plain");
    assert_eq!(decode("a\\nb\\rc\\td\\0e\\\\f"), "a\nb\rc\td\0e\\f");
    assert_eq!(decode("\\u0041"), "A");
    assert_eq!(decode("\\u00e9t\\u00E9"), "été");
    assert_eq!(decode("\\U0001F600!"), "\u{1F600}!");
    assert_eq!(decode("\\u0021d"), "!d");
    assert_eq!(decode("\\q"), "\u{FFFD}");
    assert_eq!(decode("\\\""), "\u{FFFD}");
    assert_eq!(decode("\\uD800x"), "\u{FFFD}x");
    assert_eq!(decode("\\u12"), "\u{12}");
    assert_eq!(decode("\\u"), "\u{FFFD}");
    assert_eq!(decode("\\U0041"), "A");
    assert_eq!(decode("\\uzzzz."), "\u{FFFD}.");
    assert_eq!(decode("\\U00110000"), "\u{FFFD}");
    assert_eq!(decode("end\\"), "end");
    assert_eq!(decode(""), "");
    let raw = ConfigString { kind: StringKind::RawString("a\\nb".to_string()), span: Span::new() };
    assert_eq!(raw.to_string(), "a\\nb");
    let mut dest = "x".to_string();
    raw.append_to_string(&mut dest);
    assert_eq!(dest, "xa\\nb");
    assert_eq!(ConfigString::new().to_string(), "");
    assert!(!ConfigString::new().span.is_valid());
}

#[test]
fn span_union() {
    let mut a = Span::new();
    assert!(!a.is_valid());
    a.combine(Span { start: 5, len: 3 });
    assert_eq!(a, Span { start: 5, len: 3 });
    a.combine(Span::new());
    assert_eq!(a, Span { start: 5, len: 3 });
    a.combine(Span { start: 2, len: 1 });
    assert_eq!(a, Span { start: 2, len: 6 });
    a.combine(Span { start: 4, len: 10 });
    assert_eq!(a, Span { start: 2, len: 12 });
    a.combine(Span { start: 3, len: 2 });
    assert_eq!(a, Span { start: 2, len: 12 });
    let mut big = Span { start: usize::MAX - 2, len: 10 };
    big.combine(Span { start: 1, len: 1 });
    assert_eq!(big, Span { start: 1, len: usize::MAX - 1 });
}

#[test]
fn lines_and_columns() {
    let source = Source::new("f", "ab\n\tcé d\n\nlast");
    assert_eq!(source.len(), 14);
    assert_eq!(source.get(0), Some('a'));
    assert_eq!(source.get(14), None);
    assert_eq!(source.get_line_col_from_pos(0), (0, 0));
    assert_eq!(source.get_line_col_from_pos(1), (0, 1));
    assert_eq!(source.get_line_col_from_pos(2), (0, 2));
    assert_eq!(source.get_line_col_from_pos(3), (1, 0));
    assert_eq!(source.get_line_col_from_pos(5), (1, 2));
    assert_eq!(source.get_line_col_from_pos(6), (1, 3));
    assert_eq!(source.get_line_col_from_pos(7), (1, 4));
    assert_eq!(source.get_line_col_from_pos(10), (2, 0));
    assert_eq!(source.get_line_col_from_pos(11), (3, 0));
    assert_eq!(source.get_line_col_from_pos(15), (3, 4));
    assert_eq!(source.get_line_col_from_pos(100), (3, 89));
    assert_eq!(source.index_of(6), 5);
    assert_eq!(source.index_of(7), 6);
    assert_eq!(source.newline_count(), 3);
    assert_eq!(source.get_line_start_end(0), (0, 2));
    assert_eq!(source.get_line_start_end(1), (3, 8));
    assert_eq!(source.get_line_start_end(2), (9, 9));
    assert_eq!(source.get_line_start_end(3), (10, 14));
    assert_eq!(source.get_line(0), "ab");
    assert_eq!(source.get_line(1), "\tcé d");
    assert_eq!(source.get_line(2), "");
    assert_eq!(source.get_line(3), "last");
    let place = source.locate(6);
    assert_eq!(
        (place.index, place.offset, place.line, place.line_start, place.line_start_offset),
        (5, 5, 1, 3, 3)
    );
    assert_eq!((place.line_end, place.line_end_offset), (8, 9));
    let place = source.locate(12);
    assert_eq!((place.index, place.line, place.line_start, place.line_end), (11, 3, 10, 14));
    assert_eq!((place.line_start_offset, place.line_end_offset), (11, 15));
    let empty = Source::new("e", "");
    assert_eq!(empty.newline_count(), 0);
    assert_eq!(empty.get_line_col_from_pos(0), (0, 0));
    assert_eq!(empty.get_line(0), "");
}

#[test]
fn error_reports() {
    let source = Source::new("dir/file", "first\n\tkey\t= some value here\nthird line");
    let plain = Error::from_span(Span { start: 7, len: 3 }, None, ErrorKind::InvalidRepr, "bad");
    assert_eq!(plain.kind, ErrorKind::InvalidRepr);
    assert_eq!(plain.text, "error: bad\n");
    let plain = Error::from_pos(7, None, ErrorKind::Custom(7), "bad");
    assert_eq!(plain.kind, ErrorKind::Custom(7));
    assert_eq!(plain.text, "error: bad\n");
    let nowhere = Error::from_span(Span::new(), Some(&source), ErrorKind::UnknownField, "what");
    assert_eq!(nowhere.text, "dir/file: error: what\n");
    let at = Error::from_pos(11, Some(&source), ErrorKind::ParseFailure, "here");
    assert_eq!(at.text, "dir/file:2:5: error: here\n    key    = some value here\n           ^\n");
    let at0 = Error::from_pos(0, Some(&source), ErrorKind::ParseFailure, "start");
    assert_eq!(at0.text, "dir/file:1:0: error: start\nfirst\n^\n");
    let one = Error::from_span(Span { start: 7, len: 1 }, Some(&source), ErrorKind::ParseFailure, "m");
    assert_eq!(one.text, "dir/file:2:1-2:1: error: m\n    key    = some value here\n    ^\n");
    let two = Error::from_span(Span { start: 7, len: 2 }, Some(&source), ErrorKind::ParseFailure, "m");
    assert_eq!(two.text, "dir/file:2:1-2:2: error: m\n    key    = some value here\n    ^\n");
    let three = Error::from_span(Span { start: 7, len: 3 }, Some(&source), ErrorKind::ParseFailure, "m");
    assert_eq!(three.text, "dir/file:2:1-2:3: error: m\n    key    = some value here\n    ^~~\n");
    let over_tab = Error::from_span(Span { start: 7, len: 6 }, Some(&source), ErrorKind::ParseFailure, "m");
    assert_eq!(over_tab.text, format!("dir/file:2:1-2:6: error: m\n    key    = some value here\n    ^{}\n", "~".repeat(8)));
    let lines = Error::from_span(Span { start: 13, len: 25 }, Some(&source), ErrorKind::ParseFailure, "m");
    assert_eq!(
        lines.text,
        format!(
            "dir/file:2:7-3:21: error: m\n    key    = some value here\n{}^{}\n",
            " ".repeat(13),
            "~".repeat(14)
        )
    );
    let whole = Error::new(ErrorKind::NotFound, "text".to_string());
    assert_eq!(whole.to_string(), "text");
    let big = Source::new("n", "0\n1\n2\n3\n4\n5\n6\n7\n8\n9 23456789 1 3");
    let e = Error::from_span(Span { start: 30, len: 3 }, Some(&big), ErrorKind::ParseFailure, "m");
    assert_eq!(e.text, format!("n:10:12-10:14: error: m\n9 23456789 1 3\n{}^~~\n", " ".repeat(12)));
}

#[test]
fn unquoted_form_reads_back_on_a_line_of_its_own() {
    for s in ["a", "a b", "é ü", "", "a  b", " a", "a ", "a=b", "a\\b", "a\\", "\\\\", "\"", "#", "a\tb", "x\ny", "\u{A0}", "}}"] {
        let line = format!("{}\n", s);
        let found = kinds(&line);
        let reads_back = found.len() == 1
            && found[0].starts_with("E(")
            && decode(&found[0][2..found[0].len() - 1]) == s;
        assert_eq!(
            get_string_quote_type(s) == StringQuoteType::Naked,
            reads_back,
            "{:?} read as {:?}",
            s,
            found
        );
    }
}
