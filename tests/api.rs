use contentline::{Component, InvalidNameError, NameType, Property};

fn expect_name_err<T: std::fmt::Debug>(res: Result<T, InvalidNameError>, msg: &str) {
    match &res {
        Err(e) if e.message().contains(msg) => (),
        Err(e) => panic!("Didn't get the expected error, got: {:?}", e.message()),
        Ok(c) => panic!("Expected an error, but got:{:?}", c),
    }
}

#[test]
fn new_prop_empty() {
    Property::new_empty("Name".to_string(), "".to_string()).unwrap();
}

#[test]
fn new_prop_empty_wrong() {
    let p = Property::new_empty("Nam e".to_string(), "".to_string());
    expect_name_err(p, "property name \"Nam e\" is invalid: character ' ' is not allowed");
}

#[test]
fn new_comp_empty() {
    Component::new_empty("Name".to_string()).unwrap();
}

#[test]
fn new_comp_empty_wrong() {
    let c = Component::new_empty("Nam e".to_string());
    expect_name_err(c, "component name \"Nam e\" is invalid: character ' ' is not allowed");
}

#[test]
fn new_comp_full() {
    let mut p = Property::new_empty("Name".to_string(), "".to_string()).unwrap();
    p.add_param("hi".to_string(), "lo".to_string()).unwrap();
    let mut c1 = Component::new_empty("Name".to_string()).unwrap();
    c1.add_property(p);
    Component::new("Name".to_string(), vec![], vec![c1]).unwrap();
}

#[test]
fn invalid_parameter_name() {
    let mut p = Property::new_empty("Name".to_string(), "v".to_string()).unwrap();
    let e = p.add_param("b\u{2764}d".to_string(), "x".to_string()).unwrap_err();
    assert_eq!(e.typ, NameType::Parameter);
    assert_eq!(e.violation, '\u{2764}');
    assert_eq!(e.message(), "parameter name \"b\u{2764}d\" is invalid: character '\u{2764}' is not allowed");
    assert_eq!(p.parameters.len(), 0);
}

#[test]
fn nested_invalid_name_is_found() {
    let inner = Component {
        name: "IN;NER".to_string(),
        properties: vec![],
        sub_components: vec![],
    };
    let e = Component::new("OUTER".to_string(), vec![], vec![inner]).unwrap_err();
    assert_eq!(e.typ, NameType::Component);
    assert_eq!(e.name, "IN;NER");
    assert_eq!(e.violation, ';');
}

#[test]
fn property_check_reports_first_bad_parameter() {
    let mut p = Property::new_empty("P".to_string(), "v".to_string()).unwrap();
    p.parameters.add("GOOD".to_string(), "1".to_string());
    p.parameters.add("BA D".to_string(), "2".to_string());
    p.parameters.add("WO:RSE".to_string(), "3".to_string());
    let e = p.check().unwrap_err();
    assert_eq!(e.name, "BA D");
    assert_eq!(e.violation, ' ');
}

#[test]
fn is_valid_name_cases() {
    assert_eq!(contentline::is_valid_name("ABC-def-09"), None);
    assert_eq!(contentline::is_valid_name(""), None);
    assert_eq!(contentline::is_valid_name("a_b"), Some('_'));
    assert_eq!(contentline::is_valid_name("x\u{e9}y:"), Some('\u{e9}'));
}

#[test]
fn parameters_repeat_and_lookup() {
    let mut p = Property::new_empty("P".to_string(), "v".to_string()).unwrap();
    p.add_param("A".to_string(), "1".to_string()).unwrap();
    p.add_param("B".to_string(), "2".to_string()).unwrap();
    p.add_param("A".to_string(), "3".to_string()).unwrap();
    assert_eq!(p.parameters.len(), 2);
    assert_eq!(p.get_param_value("A").unwrap(), &vec!["1".to_string(), "3".to_string()]);
    assert_eq!(p.get_param_value("B").unwrap(), &vec!["2".to_string()]);
    assert!(p.get_param_value("a").is_none());
}

#[test]
fn find_property_is_case_sensitive() {
    let mut c = Component::new_empty("C".to_string()).unwrap();
    c.add_property(Property::new_empty("X".to_string(), "1".to_string()).unwrap());
    c.add_property(Property::new_empty("Y".to_string(), "2".to_string()).unwrap());
    c.add_property(Property::new_empty("X".to_string(), "3".to_string()).unwrap());
    let found = c.find_property("X");
    assert_eq!(found.len(), 2);
    assert_eq!(found[0].value, "1");
    assert_eq!(found[1].value, "3");
    assert_eq!(c.find_property("x").len(), 0);
}
