use contentline::{Component, ComponentEncode, Encoder, Parameters, Property};

fn c2(name: &str) -> Component {
    Component { name: name.to_string(), properties: vec![], sub_components: vec![] }
}

fn p2(name: &str, value: &str) -> Property {
    Property {
        name: name.to_string(),
        value: value.to_string(),
        parameters: Parameters::new(),
        old_line: None,
    }
}

fn physical_lines_ok(s: &str) {
    for line in s.split("\r\n") {
        assert!(line.len() <= 75, "line too long: {:?}", line);
    }
}

#[test]
fn simple() {
    let c = c2("House");
    let expected = "BEGIN:HOUSE\r\nEND:HOUSE\r\n";
    assert_eq!(c.encode_to_string().as_str(), expected)
}

#[test]
fn nested() {
    let mut c = c2("House");
    c.add_sub_component(c2("Flat"));
    let expected = "BEGIN:HOUSE\r\nBEGIN:FLAT\r\nEND:FLAT\r\nEND:HOUSE\r\n";
    assert_eq!(c.encode_to_string().as_str(), expected)
}

#[test]
fn property() {
    let mut c = c2("House");
    c.add_property(p2("Heating", "gas"));
    let expected = "BEGIN:HOUSE\r\nHEATING:gas\r\nEND:HOUSE\r\n";
    assert_eq!(c.encode_to_string().as_str(), expected)
}

#[test]
fn property_complex() {
    let mut c = c2("House");
    let mut p = p2("Heating", "electric");
    p.add_param("vendor".to_string(), "YourGas Co\"".to_string()).unwrap();
    p.add_param("vendor".to_string(), "City:Energy LLC".to_string()).unwrap();
    p.add_param("comment".to_string(), "This is a very long comment,more than 2^3 monkeys hat to sit 20 hours to write this \n thing with linebreaks.".to_string()).unwrap();
    c.add_property(p);
    let expected = "BEGIN:HOUSE\r\n".to_string() +
            "HEATING;" +
            "VENDOR=YourGas Co^',\"City:Energy LLC\";" +
            "COMMENT=\"This is a very long \r\n comment,more than 2^^3 monkeys hat to sit 20 hours to write this ^n thing \r\n with linebreaks.\":" +
            "electric\r\n" +
            "END:HOUSE\r\n";
    let alternative = "BEGIN:HOUSE\r\n".to_string() +
            "HEATING;" +
            "COMMENT=\"This is a very long comment,more than 2^^3 monkeys hat to \r\n sit 20 hours to write this ^n thing with linebreaks.\";" +
            "VENDOR=YourGas Co^',\r\n \"City:Energy LLC\":" +
            "electric\r\n" +
            "END:HOUSE\r\n";
    let s = c.encode_to_string();
    assert!(s == expected || s == alternative, "\nGot:     {:?}\nExpected:{:?}\nOr      :{:?}", s, expected, alternative);
}

#[test]
fn utf8_folding() {
    let mut c = c2("House");
    let mut p = p2("Heating", "electric");
    p.add_param("comment".to_string(), "This is a very long comment,11 monkeys hat to paint 200 \u{2764}s to write this thing.".to_string()).unwrap();
    c.add_property(p);
    let expected = "BEGIN:HOUSE\r\n".to_string() +
            "HEATING;" +
            "COMMENT=\"This is a very long comment,11 monkeys hat to paint 200 \r\n \u{2764}s to write this thing.\":" +
            "electric\r\n" +
            "END:HOUSE\r\n";
    assert_eq!(c.encode_to_string(), expected);
}

#[test]
fn nested_complex() {
    let mut c = c2("House");
    let mut p = p2("Heating", "electric");
    p.add_param("vendor".to_string(), "YourGas Co\"".to_string()).unwrap();
    p.add_param("vendor".to_string(), "City:Energy LLC".to_string()).unwrap();
    p.add_param("comment".to_string(), "This is a very long comment,more than 2^3 monkeys hat to sit 20 hours to write this \n thing with linebreaks.".to_string()).unwrap();
    c.add_property(p);
    let mut p = p2("Heating2", "electric2");
    p.add_param("vendor".to_string(), "YourGas Co\"".to_string()).unwrap();
    p.add_param("vendor".to_string(), "City:Energy LLC".to_string()).unwrap();
    p.add_param("comment".to_string(), "This is a very long comment,more than 2^3 monkeys hat to sit 20 hours to write this \n thing with linebreaks.".to_string()).unwrap();
    let mut c2 = c2("Flat");
    c2.add_property(p);
    c.add_sub_component(c2);
    let expected = "BEGIN:HOUSE\r\n".to_string() +
            "HEATING;" +
            "VENDOR=YourGas Co^',\"City:Energy LLC\";" +
            "COMMENT=\"This is a very long \r\n comment,more than 2^^3 monkeys hat to sit 20 hours to write this ^n thing \r\n with linebreaks.\":electric\r\n" +
            "BEGIN:FLAT\r\n" +
            "HEATING2;" +
            "VENDOR=YourGas Co^',\"City:Energy LLC\";" +
            "COMMENT=\"This is a very long\r\n  comment,more than 2^^3 monkeys hat to sit 20 hours to write this ^n thing\r\n  with linebreaks.\":electric2\r\n" +
            "END:FLAT\r\nEND:HOUSE\r\n";
    let alt1 = "BEGIN:HOUSE\r\n".to_string() +
            "HEATING;" +
            "COMMENT=\"This is a very long comment,more than 2^^3 monkeys hat to \r\n sit 20 hours to write this ^n thing with linebreaks.\";" +
            "VENDOR=YourGas Co^',\r\n \"City:Energy LLC\":electric\r\n" +
            "BEGIN:FLAT\r\n" +
            "HEATING2;" +
            "VENDOR=YourGas Co^',\"City:Energy LLC\";" +
            "COMMENT=\"This is a very long\r\n  comment,more than 2^^3 monkeys hat to sit 20 hours to write this ^n thing\r\n  with linebreaks.\":electric2\r\n" +
            "END:FLAT\r\nEND:HOUSE\r\n";
    let alt2 = "BEGIN:HOUSE\r\n".to_string() +
            "HEATING;" +
            "VENDOR=YourGas Co^',\"City:Energy LLC\";" +
            "COMMENT=\"This is a very long \r\n comment,more than 2^^3 monkeys hat to sit 20 hours to write this ^n thing \r\n with linebreaks.\":electric\r\n" +
            "BEGIN:FLAT\r\n" +
            "HEATING2;" +
            "COMMENT=\"This is a very long comment,more than 2^^3 monkeys hat to\r\n  sit 20 hours to write this ^n thing with linebreaks.\";" +
            "VENDOR=YourGas Co^'\r\n ,\"City:Energy LLC\":electric2\r\n" +
            "END:FLAT\r\nEND:HOUSE\r\n";
    let alt3 = "BEGIN:HOUSE\r\n".to_string() +
            "HEATING;" +
            "COMMENT=\"This is a very long comment,more than 2^^3 monkeys hat to \r\n sit 20 hours to write this ^n thing with linebreaks.\";" +
            "VENDOR=YourGas Co^',\r\n \"City:Energy LLC\":electric\r\n" +
            "BEGIN:FLAT\r\n" +
            "HEATING2;" +
            "COMMENT=\"This is a very long comment,more than 2^^3 monkeys hat to\r\n  sit 20 hours to write this ^n thing with linebreaks.\";" +
            "VENDOR=YourGas Co^'\r\n ,\"City:Energy LLC\":electric2\r\n" +
            "END:FLAT\r\nEND:HOUSE\r\n";
    let s = c.encode_to_string();
    assert!(s == expected || s == alt1 || s == alt2 || s == alt3,
            "\nGot:     {:?}\nExpected:{:?}\nOr      :{:?}\nOr      :{:?}\nOr      :{:?}", s, expected, alt1, alt2, alt3);
}

#[test]
fn long_value_folds_at_75_octets() {
    let mut c = c2("X");
    let value: String = std::iter::repeat("abcdefghij").take(20).collect();
    c.add_property(p2("DESCRIPTION", &value));
    let s = c.encode_to_string();
    physical_lines_ok(&s);
    let first = s.split("\r\n").nth(1).unwrap();
    assert_eq!(first.len(), 75);
    assert_eq!(s.replace("\r\n ", ""), format!("BEGIN:X\r\nDESCRIPTION:{}\r\nEND:X\r\n", value));
}

#[test]
fn multibyte_value_folds_on_char_boundary() {
    let mut c = c2("X");
    let value: String = std::iter::repeat("\u{2764}").take(60).collect();
    c.add_property(p2("NOTE", &value));
    let s = c.encode_to_string();
    physical_lines_ok(&s);
    let first = s.split("\r\n").nth(1).unwrap();
    assert_eq!(first.len(), 74);
    assert_eq!(s.replace("\r\n ", ""), format!("BEGIN:X\r\nNOTE:{}\r\nEND:X\r\n", value));
}

#[test]
fn encoder_writes_all_and_into_writer() {
    let mut e = Encoder::new(b"#".to_vec());
    e.encode_all(&vec![c2("a"), c2("b")]);
    let bytes = e.into_writer();
    assert_eq!(bytes, b"#BEGIN:A\r\nEND:A\r\nBEGIN:B\r\nEND:B\r\n".to_vec());
    let mut w: Vec<u8> = Vec::new();
    Encoder::encode_into_writer(&mut w, &c2("z"));
    w.encode_component(&c2("y"));
    assert_eq!(w, b"BEGIN:Z\r\nEND:Z\r\nBEGIN:Y\r\nEND:Y\r\n".to_vec());
}

#[test]
fn encode_property_quotes_separators() {
    let mut e = Encoder::new(Vec::new());
    let mut p = p2("p", "v");
    p.add_param("a".to_string(), "x;y".to_string()).unwrap();
    p.add_param("a".to_string(), "plain".to_string()).unwrap();
    p.add_param("b".to_string(), "".to_string()).unwrap();
    e.encode_property(&p);
    assert_eq!(e.into_writer(), b"P;A=\"x;y\",plain;B=:v\r\n".to_vec());
}
