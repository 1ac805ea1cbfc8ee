use slr_config::{parse_source, ConfigString, Error, ErrorKind, Source, Span, Visitor};

/// A visitor that writes down what it is told, and refuses a given name.
struct Recorder {
    events: Vec<String>,
    refused: &'static str,
}

impl Recorder {
    fn new(refused: &'static str) -> Recorder {
        Recorder { events: vec![], refused }
    }
}

impl Visitor for Recorder {
    type State = ();

    fn start_element(&mut self, src: &Source, name: ConfigString) -> Result<(), Error> {
        if name.to_string() == self.refused {
            return Err(Error::from_span(name.span, Some(src), ErrorKind::Custom(3), "refused"));
        }
        self.events.push(format!("start {:?}", name.to_string()));
        Ok(())
    }

    fn end_element(&mut self) -> Result<(), Error> {
        self.events.push("end".to_string());
        Ok(())
    }

    fn set_table(&mut self, _src: &Source, span: Span) -> Result<(), Error> {
        self.events.push(format!("table at {}", span.start));
        Ok(())
    }

    fn set_tagged_table(&mut self, _src: &Source, span: Span, tag: ConfigString) -> Result<(), Error> {
        self.events.push(format!("table {} at {}", tag.to_string(), span.start));
        Ok(())
    }

    fn set_array(&mut self, _src: &Source, span: Span) -> Result<(), Error> {
        self.events.push(format!("array at {}", span.start));
        Ok(())
    }

    fn set_tagged_array(&mut self, _src: &Source, span: Span, tag: ConfigString) -> Result<(), Error> {
        self.events.push(format!("array {} at {}", tag.to_string(), span.start));
        Ok(())
    }

    fn append_string(&mut self, _src: &Source, string: ConfigString) -> Result<(), Error> {
        self.events.push(format!("append {}", string.to_string()));
        Ok(())
    }

    fn expand(&mut self, _src: &Source, name: ConfigString) -> Result<(), Error> {
        self.events.push(format!("expand {}", name.to_string()));
        Ok(())
    }
}

#[test]
fn visitor_sees_events_in_source_order() {
    let source = Source::new("v", "a = x ~ $y\nt { b = [1, T {}, U [$z]] }\nw = V { }");
    let mut recorder = Recorder::new("never");
    parse_source(&source, &mut recorder).unwrap();
    assert_eq!(
        recorder.events,
        vec![
            "start \"a\"",
            "append x",
            "expand y",
            "end",
            "start \"t\"",
            "table at 13",
            "start \"b\"",
            "array at 19",
            "start \"\"",
            "append 1",
            "end",
            "start \"\"",
            "table T at 23",
            "end",
            "start \"\"",
            "array U at 29",
            "start \"\"",
            "expand z",
            "end",
            "end",
            "end",
            "end",
            "start \"w\"",
            "table V at 43",
            "end",
        ]
    );
}

#[test]
fn visitor_error_ends_the_parse() {
    let source = Source::new("v", "a = 1\nbad = 2\nc = \"unterminated");
    let mut recorder = Recorder::new("bad");
    let err = parse_source(&source, &mut recorder).unwrap_err();
    assert_eq!(err.kind, ErrorKind::Custom(3));
    assert_eq!(err.text, "v:2:0-2:2: error: refused\nbad = 2\n^~~\n");
    assert_eq!(recorder.events, vec!["start \"a\"", "append 1", "end"]);
}

#[test]
fn first_error_in_source_order_wins() {
    let source = Source::new("v", "a = 1\nb = \"unterminated");
    let mut recorder = Recorder::new("never");
    let err = parse_source(&source, &mut recorder).unwrap_err();
    assert_eq!(err.kind, ErrorKind::ParseFailure);
    assert!(err.text.contains("Unterminated quoted string literal"), "{}", err.text);
    let source = Source::new("v", "a = ]\nb = \"unterminated");
    let err = parse_source(&source, &mut recorder).unwrap_err();
    assert!(err.text.contains("Expected '[' or a string"), "{}", err.text);
}
