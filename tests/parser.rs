use contentline::{Component, ItemType, Parameters, Parser, Property};

fn parser_of(input: &[u8]) -> Parser {
    Parser::new(input.to_vec())
}

fn c(name: &str, props: Vec<Property>, comps: Vec<Component>) -> Component {
    Component { name: name.to_string(), properties: props, sub_components: comps }
}

fn c2(name: &str) -> Component {
    c(name, vec![], vec![])
}

fn p(name: &str, value: &str, param: Parameters) -> Property {
    Property { name: name.to_string(), value: value.to_string(), parameters: param, old_line: None }
}

fn p2(name: &str, value: &str) -> Property {
    p(name, value, Parameters::new())
}

fn pm(vals: Vec<(&str, Vec<&str>)>) -> Parameters {
    let mut out = Parameters::new();
    for (k, v) in vals {
        for s in v {
            out.add(k.to_string(), s.to_string());
        }
    }
    out
}

fn assert_comp_equal(a: &Component, b: &Component) {
    assert_eq!(a.name, b.name, "component names");
    assert_eq!(a.properties.len(), b.properties.len(), "property count, components:\n{:#?}\n{:#?}", a, b);
    assert_eq!(a.sub_components.len(), b.sub_components.len(), "subcomponent count");
    for i in 0..a.properties.len() {
        assert_prop_equal(&a.properties[i], &b.properties[i]);
    }
    for i in 0..a.sub_components.len() {
        assert_comp_equal(&a.sub_components[i], &b.sub_components[i]);
    }
}

fn assert_prop_equal(a: &Property, b: &Property) {
    assert_eq!(a.name, b.name, "property names");
    assert_eq!(a.value, b.value, "property values");
    assert_eq!(a.parameters.len(), b.parameters.len(), "parameter counts");
    for (a_p, a_values) in &a.parameters.entries {
        for a_val in a_values {
            assert!(b.parameters.get(a_p).unwrap().contains(a_val))
        }
    }
    for (b_p, b_values) in &b.parameters.entries {
        for b_val in b_values {
            assert!(a.parameters.get(b_p).unwrap().contains(b_val))
        }
    }
}

fn drain(p: &mut Parser) {
    loop {
        match p.next_component() {
            Ok(Some(_)) => {}
            _ => break,
        }
    }
}

fn test_parse_bytes(input: &[u8], expected: Component) {
    let mut p = parser_of(input);
    let got = p.next_component().unwrap().unwrap();
    assert_comp_equal(&got, &expected);
    if let Some(x) = p.next_component().unwrap() {
        panic!("expected EOF, but got:\n{:#?}", x)
    }
}

fn test_parse(input: &str, expected: Component) {
    test_parse_bytes(input.as_bytes(), expected);
}

fn test_parse_error(input: &str, error: &str) {
    let mut p = parser_of(input.as_bytes());
    match p.next_component() {
        Err(e) if e.message().contains(error) => (),
        Err(e) => panic!("Didn't get the expected error, got: {:?}\n\nObject:\t{:?}", e.message(), e),
        Ok(c) => panic!("Expected an error, but got:{:?}", c),
    }
    drain(&mut p);
}

#[test]
fn parse_empty() {
    let mut p = parser_of("".as_bytes());
    let got = p.next_component().unwrap();
    assert!(got.is_none());
}

#[test]
fn parse_simple() {
    test_parse("BEGIN:comp\r\nEND:Comp\r\n", c2("COMP"))
}

#[test]
fn parse_simple_nested() {
    test_parse("BEGIN:comp\r\nBEGIN:inner\r\nEND:inner\r\nEND:Comp\r\n", c("COMP", vec![], vec![c2("INNER")]))
}

#[test]
fn parse_with_property() {
    test_parse("BEGIN:comp\r\nFEATURE:Content:'!,;.'\r\nEND:Comp\r\n", c("COMP", vec![p2("FEATURE", "Content:'!,;.'")], vec![]))
}

#[test]
fn parse_unfolding() {
    test_parse("BEGIN:comp\r\nFEATURE:Conten\r\n t:'!,;.'\r\nEND:Comp\r\n", c("COMP", vec![p2("FEATURE", "Content:'!,;.'")], vec![]))
}

#[test]
fn parse_parameter() {
    test_parse("BEGIN:comp\r\nFEATURE;LANG=en:LoremIpsum\r\nEND:Comp\r\n",
        c("COMP", vec![p("FEATURE", "LoremIpsum", pm(vec![("LANG", vec!["en"])]))], vec![]))
}

#[test]
fn parse_quoted_parameter() {
    test_parse("BEGIN:comp\r\nFEATURE;LAng=\"e;n\":LoremIpsum\r\nEND:Comp\r\n",
        c("COMP", vec![p("FEATURE", "LoremIpsum", pm(vec![("LANG", vec!["e;n"])]))], vec![]))
}

#[test]
fn parse_with_rfc6868_escaping() {
    test_parse("BEGIN:comp\r\nFEATURE;LANG=e^^^n:LoremIpsum\r\nEND:Comp\r\n",
        c("COMP", vec![p("FEATURE", "LoremIpsum", pm(vec![("LANG", vec!["e^\n"])]))], vec![]))
}

#[test]
fn parse_complex() {
    test_parse("BEGIN:comp\r\nFEATURE;Par1=e^'^n,\"other^,val\";PAR2=\"\r\n display:none;\",not interesting:LoremIpsum\r\nEND:Comp\r\n",
        c("COMP", vec![p("FEATURE", "LoremIpsum", pm(vec![
            ("PAR1", vec!["e\"\n", "other^,val"]),
            ("PAR2", vec!["display:none;", "not interesting"]),
        ]))], vec![]))
}

#[test]
fn parse_nested_component() {
    test_parse("BEGIN:comp\r\nBEGIN:iNnErCoMp\r\nFEATURE;LAng=\"e;n\":LoremIpsum\r\nEND:InNeRcOmP\r\nEND:Comp\r\n",
        c("COMP", vec![], vec![
            c("INNERCOMP", vec![p("FEATURE", "LoremIpsum", pm(vec![("LANG", vec!["e;n"])]))], vec![])
        ]))
}

#[test]
fn parse_nested_and_property() {
    test_parse("BEGIN:comp\r\nFEATURE;LAng=\"e;n\":LoremIpsum\r\nBEGIN:iNnErCoMp\r\nEND:InNeRcOmP\r\nFEATURE;LAng2=\"e;n\":LoremIpsum\r\nEND:Comp\r\n",
        c("COMP", vec![
            p("FEATURE", "LoremIpsum", pm(vec![("LANG", vec!["e;n"])])),
            p("FEATURE", "LoremIpsum", pm(vec![("LANG2", vec!["e;n"])]))
        ], vec![c("INNERCOMP", vec![], vec![])]))
}

#[test]
fn parse_two_components() {
    let input = "BEGIN:comp\r\nEND:Comp\r\nBEGIN:porp\r\nEND:poRp\r\n";
    let expect1 = c2("COMP");
    let expect2 = c2("PORP");
    let mut p = parser_of(input.as_bytes());
    let got1 = p.next_component().unwrap().unwrap();
    let got2 = p.next_component().unwrap().unwrap();
    assert_comp_equal(&got1, &expect1);
    assert_comp_equal(&got2, &expect2);
    if let Some(x) = p.next_component().unwrap() {
        panic!("expected EOF, but got:\n{:#?}", x)
    }
}

#[test]
fn parse_utf_splitting_fold() {
    let expected = c("COMP", vec![p2("FEATURE", "\u{2764}Content:'!,;.'")], vec![]);
    let prefix = "BEGIN:comp\r\nFEATURE:";
    let bytes = vec![0xE2_u8, 0x9D, 0xA4];
    let fold = "\r\n ";
    let suffix = "Content:'!,;.'\r\nEND:Comp\r\n";
    let mut x = vec![];
    x.extend_from_slice(prefix.as_bytes());
    x.extend_from_slice(&bytes[0..2]);
    x.extend_from_slice(fold.as_bytes());
    x.extend_from_slice(&bytes[2..3]);
    x.extend_from_slice(suffix.as_bytes());
    test_parse_bytes(x.as_slice(), expected);
}

#[test]
fn parse_cornercase_fold() {
    let input = "begin:comp\r\n \r\n \r\nend:comp\r\n";
    let expected = c2("COMP");
    test_parse(input, expected)
}

#[test]
fn parse_no_component1() {
    let mut p = parser_of("".as_bytes());
    if let Some(x) = p.next_component().unwrap() {
        panic!("expected EOF, but got:\n{:#?}", x)
    }
}

#[test]
fn parse_no_component2() {
    let mut p = parser_of("\n".as_bytes());
    if let Some(x) = p.next_component().unwrap() {
        panic!("expected EOF, but got:\n{:#?}", x)
    }
}

#[test]
fn empty_line() {
    test_parse_error("\r\n", "expected one or more alphanumerical characters or '-'");
}

#[test]
fn wrong_linebreak() {
    test_parse_error("\n\n", "line 1: expected CR ('\\r') before LF in empty line");
}

#[test]
fn wrong_line_begin() {
    test_parse_error(":\r\n", "line 1: \texpected one or more alphanumerical characters or '-':  >:<\n");
}

#[test]
fn wrong_comp_begin() {
    test_parse_error("BEG\r\n", "line 1: \texpected BEGIN:  >BEG< \n");
}

#[test]
fn wrong_comp_begin2() {
    test_parse_error("BEG:\r\n", "line 1: \texpected BEGIN:  >BEG< :\n");
}

#[test]
fn wrong_comp_begin3() {
    test_parse_error("BEGIN\r\n", "1: \texpected ':': BEGIN<HERE>\n");
}

#[test]
fn wrong_comp_begin5() {
    test_parse_error("BEGIN:HI\n", "line 1: \texpected CR ('\\r') before LF: BEGIN:HI<HERE>\n");
}

#[test]
fn wrong_prop_begin1() {
    test_parse_error("BEGIN:co\r\n:\r\n", "line 2: \texpected one or more alphanumerical characters or '-':  >:<\n");
}

#[test]
fn wrong_prop_begin2() {
    test_parse_error("BEGIN:co\r\nw :\r\n", "line 2: \texpected ':' or ';': w > < :\n");
}

#[test]
fn wrong_prop_begin3() {
    test_parse_error("BEGIN:co\r\nwas:\r\n", "line 2: \tproperty value can\'t have length 0: was:<HERE>\n");
}

#[test]
fn wrong_prop_param2() {
    test_parse_error("BEGIN:co\r\nwas;x\r\n", "line 2: \texpected \'=\': was;x<HERE>\n");
}

#[test]
fn wrong_prop_param4() {
    test_parse_error("BEGIN:co\r\nwas;x =\r\n", "line 2: \texpected '=': was;x > < =\n");
}

#[test]
fn wrong_comp_end1() {
    test_parse_error("BEGIN:co\r\nwas:x\r\n", "line 3: Unexpected end of file or stream, expected END:CO");
}

#[test]
fn wrong_comp_end2() {
    test_parse_error("BEGIN:co\r\nwas:x\r\nend:x\r\n", "line 3: \texpected \"END:CO\": end: >x<\n");
}

#[test]
fn utf8_1() {
    let st = "BEGIN:co\r\nwas;=x";
    let mut data = vec![];
    data.extend_from_slice(st.as_bytes());
    data.push(0x82);
    data.push(b'\r');
    data.push(b'\n');
    let mut p = parser_of(data.as_slice());
    loop {
        match p.next_component() {
            Err(e) => assert_eq!(e.message(), "invalid utf-8 sequence of 1 bytes from index 6"),
            Ok(Some(_)) => {}
            Ok(None) => break,
        }
    }
}

#[test]
fn fuzzing_example_1() {
    let data = vec![0x0a, 0xec, 0x0a, 0x0d];
    let mut p = parser_of(data.as_slice());
    drain(&mut p);
}

#[test]
fn wrong_comp_begin4() {
    test_parse_error("BEGIN:\r\n", "line 1: \tcomponent name can't have length 0: BEGIN:<HERE>\n");
}

#[test]
fn wrong_prop_param() {
    test_parse_error("BEGIN:co\r\nwas;\r\n", "line 2: \tname must not be empty: was;<HERE>\n");
}

#[test]
fn wrong_prop_param3() {
    test_parse_error("BEGIN:co\r\nwas; x\r\n", "line 2: \tname must not be empty: was; > < x\n");
}

#[test]
fn wrong_prop_param5() {
    test_parse_error("BEGIN:co\r\nwas;=x\r\n", "line 2: \tname must not be empty: was; >=< x\n");
}

#[test]
fn wrong_comp_name() {
    test_parse_error("BEGIN:HI\u{2764}\r\n", "line 1: \tunexpected character, expected eol, alphanumeric or '-': BEGIN:HI >\u{2764}< \n");
}

#[test]
fn old_line_is_kept() {
    let mut p = parser_of(b"BEGIN:a\r\nX;P=1:v\r\n y\r\nEND:a\r\n");
    let c = p.next_component().unwrap().unwrap();
    assert_eq!(c.properties[0].old_line, Some(("X;P=1:vy".to_string(), 2)));
    assert_eq!(c.properties[0].value, "vy");
}

#[test]
fn eof_inside_nested_component() {
    test_parse_error("BEGIN:a\r\nBEGIN:b\r\n", "line 3: Unexpected end of file or stream, expected END:B");
}

#[test]
fn end_before_begin() {
    test_parse_error("END:x\r\n", "line 1: \texpected BEGIN:  >END< :x\n");
}

#[test]
fn lf_only_inside_component() {
    let mut p = parser_of(b"BEGIN:a\r\nX:y\nEND:a\r\n");
    match p.next_component() {
        Err(contentline::Error::CRLF(bytes, line, more)) => {
            assert_eq!(bytes, b"X:y".to_vec());
            assert_eq!(line, 2);
            assert!(more);
        }
        other => panic!("expected a CRLF error, got {:?}", other),
    }
}

#[test]
fn control_character_in_value() {
    test_parse_error("BEGIN:a\r\nX:a\u{1}b\r\n", "line 2: \tunexpected character, expected eol: X: >a< \u{1}b\n");
}

#[test]
fn long_context_is_cut() {
    let line = format!("X;{}=1:{}", "A".repeat(30), "");
    let input = format!("BEGIN:a\r\n{}\r\n", line);
    test_parse_error(&input, "line 2: \tproperty value can't have length 0: ...AAAAAAAAAAAAAAAAA=1:<HERE>\n");
}

#[test]
fn round_trip_through_encoder() {
    let input = "BEGIN:A\r\nX;P=\"a,b\",c;Q=^'q^':value with spaces\r\nBEGIN:B\r\nY:\u{2764}\r\nEND:B\r\nEND:A\r\n";
    let mut p = parser_of(input.as_bytes());
    let c = p.next_component().unwrap().unwrap();
    assert_eq!(c.encode_to_string(), input);
}

#[test]
fn parsed_names_are_legal_and_values_present() {
    let input = "BEGIN:vcalendar\r\nBEGIN:vEvent\r\nsummary;x-Lang=de:Hallo\r\nEND:VEVENT\r\nprodid:-//x//y\r\nEND:VCALENDAR\r\n";
    let mut p = parser_of(input.as_bytes());
    let c = p.next_component().unwrap().unwrap();
    fn check(c: &Component) {
        assert!(!c.name.is_empty());
        assert_eq!(contentline::is_valid_name(&c.name), None);
        for prop in &c.properties {
            assert!(!prop.name.is_empty());
            assert_eq!(contentline::is_valid_name(&prop.name), None);
            assert!(!prop.value.is_empty());
            for (k, _) in &prop.parameters.entries {
                assert_eq!(contentline::is_valid_name(k), None);
            }
        }
        for s in &c.sub_components {
            check(s);
        }
    }
    check(&c);
    assert_eq!(c.name, "VCALENDAR");
    assert_eq!(c.sub_components[0].properties[0].name, "SUMMARY");
    assert!(c.sub_components[0].properties[0].parameters.get("X-LANG").is_some());
}

#[test]
fn error_constructors_render() {
    let item = contentline::Item {
        typ: contentline::ItemType::Id,
        pos: 2,
        val: "CD".to_string(),
        line: 7,
    };
    let e = contentline::Error::new(item, "bad".to_string(), ("abcdef".to_string(), 7));
    assert_eq!(e.message(), "line 7: \tbad: ab >cd< ef\n");
    let e = contentline::Error::crlf_error(Vec::new(), 4, true);
    assert_eq!(e.message(), "line 4: expected CR ('\\r') before LF in empty line");
    let e = contentline::Error::eof_error("X".to_string(), 9);
    assert_eq!(e.message(), "line 9: Unexpected end of file or stream, expected END:X");
}

#[test]
fn lexer_items_in_order() {
    let mut l = contentline::LineLexer::new(3, "a;b=\"x,y\",z:val".to_string());
    let mut got = Vec::new();
    while let Some(i) = l.next_item() {
        got.push((i.typ, i.pos, i.val, i.line));
    }
    assert_eq!(got, vec![
        (ItemType::Id, 0, "a".to_string(), 3),
        (ItemType::Id, 2, "b".to_string(), 3),
        (ItemType::ParamValue, 4, "x,y".to_string(), 3),
        (ItemType::ParamValue, 10, "z".to_string(), 3),
        (ItemType::PropValue, 12, "val".to_string(), 3),
    ]);
    assert_eq!(l.get_line(), ("a;b=\"x,y\",z:val".to_string(), 3));
}

#[test]
fn lexer_positions_are_byte_offsets() {
    let mut l = contentline::LineLexer::new(1, "x;p=\u{2764}:\u{2764}v".to_string());
    let mut got = Vec::new();
    while let Some(i) = l.next_item() {
        got.push((i.pos, i.val));
    }
    assert_eq!(got, vec![
        (0, "x".to_string()),
        (2, "p".to_string()),
        (4, "\u{2764}".to_string()),
        (8, "\u{2764}v".to_string()),
    ]);
}

#[test]
fn utf8_error_message_from_bytes() {
    let e = contentline::Error::Utf8(vec![b'a', 0x82]);
    assert_eq!(e.message(), "invalid utf-8 sequence of 1 bytes from index 1");
}

#[test]
fn crlf_error_with_invalid_bytes() {
    let mut p = parser_of(b"BEGIN:a\r\nX\xff\nEND:a\r\n");
    match p.next_component() {
        Err(e) => {
            assert!(matches!(e, contentline::Error::CRLF(_, 2, true)));
            assert_eq!(e.message(), "invalid utf-8 sequence of 1 bytes from index 1");
        }
        other => panic!("expected a CRLF error, got {:?}", other),
    }
}

#[test]
fn parsed_parameter_names_are_upper_case() {
    let mut p = parser_of(b"BEGIN:a\r\nx;lang=de;Alt-Rep=y:v\r\nEND:a\r\n");
    let c = p.next_component().unwrap().unwrap();
    let keys: Vec<&String> = c.properties[0].parameters.entries.iter().map(|e| &e.0).collect();
    assert_eq!(keys, vec!["LANG", "ALT-REP"]);
}
