use jsonic::json_parser::JsonParser;
use jsonic::json_type::JsonType;
use jsonic::key::Key;
use jsonic::parse;
use jsonic::slice::Slice;

fn error_index(source: &str) -> usize {
    match parse(source) {
        Ok(_) => panic!("expected an error for {:?}", source),
        Err(e) => e.get_index(),
    }
}

#[test]
fn empty_input_fails_at_its_end() {
    assert_eq!(error_index(""), 0);
    assert_eq!(error_index(" "), 1);
    assert_eq!(error_index(" \n\t\r"), 4);
}

#[test]
fn root_must_be_object_or_array() {
    assert_eq!(error_index("  1"), 2);
    assert_eq!(error_index("\"a\""), 0);
    assert_eq!(error_index("null"), 0);
    assert_eq!(error_index(" x{}"), 1);
}

#[test]
fn lookup_by_key() {
    let parsed = parse("{\"a\":\"b\",\"c\":\"d\"}").unwrap();
    assert_eq!(parsed["a"].as_str(), Some("b"));
    assert_eq!(parsed["c"].as_str(), Some("d"));
    assert_eq!(parsed["z"].is_present(), false);
    assert_eq!(parsed["z"].get_type(), &JsonType::Empty);
    assert_eq!(parsed["z"].raw_text(), None);
}

#[test]
fn iterate_array_in_order() {
    let parsed = parse("[1,2,3]").unwrap();
    let mut it = parsed.elements().unwrap();
    assert_eq!(it.next().unwrap().as_i128(), Some(1));
    assert_eq!(it.next().unwrap().as_i128(), Some(2));
    assert_eq!(it.next().unwrap().as_i128(), Some(3));
    assert!(it.next().is_none());
    assert!(it.next().is_none());
    assert_eq!(parsed[5].is_present(), false);
    assert_eq!(parsed[2].as_i128(), Some(3));
}

#[test]
fn number_with_fraction_is_no_integer() {
    let parsed = parse("{\"num\":4.2344}").unwrap();
    let num = &parsed["num"];
    assert_eq!(num.get_type(), &JsonType::JsonNumber);
    assert_eq!(num.as_i128(), None);
    assert_eq!(num.as_str(), None);
    assert_eq!(num.raw_text(), Some("4.2344"));
    let value: f64 = num.raw_text().unwrap().parse().unwrap();
    assert!((value - 4.2344).abs() < 1e-12);
}

#[test]
fn exponent_numbers_keep_their_text() {
    let parsed = parse("[3.3e-21, -4.5E+213, 1e5]").unwrap();
    assert_eq!(parsed[0].raw_text(), Some("3.3e-21"));
    assert_eq!(parsed[1].raw_text(), Some("-4.5E+213"));
    assert_eq!(parsed[2].raw_text(), Some("1e5"));
    assert_eq!(parsed[2].as_i128(), None);
    let value: f64 = parsed[0].raw_text().unwrap().parse().unwrap();
    assert!((value / 3.3e-21 - 1.0).abs() < 1e-8);
}

#[test]
fn nested_traversal() {
    let parsed = parse("{\"a\":[1,[\"b\",\"c\"]]}").unwrap();
    assert_eq!(parsed["a"][1][1].as_str(), Some("c"));
    assert_eq!(parsed["a"][0].as_i128(), Some(1));
    assert_eq!(parsed["a"]["x"].is_present(), false);
    assert_eq!(parsed["a"][1][1][0].is_present(), false);
}

#[test]
fn malformed_member_list_fails_at_bracket() {
    let source = "{\"test\": \"num\", \"int\":234[] ,,}";
    assert_eq!(error_index(source), 25);
    assert_eq!(&source[25..26], "[");
}

#[test]
fn duplicate_key_last_value_wins() {
    let parsed = parse("{\"a\":1,\"a\":2}").unwrap();
    assert_eq!(parsed["a"].as_i128(), Some(2));
    let mut it = parsed.entries().unwrap();
    let (k, v) = it.next().unwrap();
    assert_eq!(k, "a");
    assert_eq!(v.as_i128(), Some(2));
    assert!(it.next().is_none());
}

#[test]
fn duplicate_key_keeps_first_place() {
    let parsed = parse("{\"a\":1,\"b\":2,\"a\":3}").unwrap();
    let mut it = parsed.entries().unwrap();
    let (k, v) = it.next().unwrap();
    assert_eq!((k, v.as_i128()), ("a", Some(3)));
    let (k, v) = it.next().unwrap();
    assert_eq!((k, v.as_i128()), ("b", Some(2)));
    assert!(it.next().is_none());
}

fn nested_arrays(depth: usize) -> String {
    let mut s = String::new();
    for _ in 0..depth {
        s.push('[');
    }
    for _ in 0..depth {
        s.push(']');
    }
    s
}

#[test]
fn deep_nesting_within_limit() {
    let source = nested_arrays(100);
    let parsed = parse(&source).unwrap();
    let mut item = &parsed;
    for _ in 0..99 {
        item = &item[0];
        assert_eq!(item.get_type(), &JsonType::JsonArray);
    }
    assert_eq!(item[0].is_present(), false);
    let limit = nested_arrays(128);
    assert!(parse(&limit).is_ok());
}

#[test]
fn nesting_beyond_limit_fails() {
    let source = nested_arrays(129);
    assert_eq!(error_index(&source), 128);
    let source = nested_arrays(5000);
    assert_eq!(error_index(&source), 128);
}

#[test]
fn literals() {
    let parsed = parse("[null, true, false]").unwrap();
    assert!(parsed[0].is_null());
    assert_eq!(parsed[0].get_type(), &JsonType::JsonNull);
    assert_eq!(parsed[1].as_bool(), Some(true));
    assert_eq!(parsed[2].as_bool(), Some(false));
    assert_eq!(parsed[0].as_bool(), None);
    assert!(!parsed[1].is_null());
}

#[test]
fn malformed_literals_fail_at_their_start() {
    assert_eq!(error_index("[nul]"), 1);
    assert_eq!(error_index("[ tru"), 2);
    assert_eq!(error_index("[falsy]"), 1);
    assert_eq!(error_index("{\"a\": nope}"), 6);
}

#[test]
fn malformed_numbers() {
    assert_eq!(error_index("[-]"), 2);
    assert_eq!(error_index("[1.]"), 3);
    assert_eq!(error_index("[1e]"), 3);
    assert_eq!(error_index("[1e+]"), 4);
    let parsed = parse("[+7, -0, 007]").unwrap();
    assert_eq!(parsed[0].as_i128(), Some(7));
    assert_eq!(parsed[1].as_i128(), Some(0));
    assert_eq!(parsed[2].as_i128(), Some(7));
}

#[test]
fn integer_range() {
    let parsed = parse("[170141183460469231731687303715884105727, -170141183460469231731687303715884105728, 170141183460469231731687303715884105728]").unwrap();
    assert_eq!(parsed[0].as_i128(), Some(i128::MAX));
    assert_eq!(parsed[1].as_i128(), Some(i128::MIN));
    assert_eq!(parsed[2].as_i128(), None);
}

#[test]
fn missing_colon_fails() {
    assert_eq!(error_index("{\"a\" 1}"), 5);
    assert_eq!(error_index("{\"a\":: 1}"), 5);
    assert_eq!(error_index("{\"a\":}"), 5);
    assert_eq!(error_index("{1:2}"), 1);
}

#[test]
fn unterminated_input_fails_at_its_end() {
    assert_eq!(error_index("{\"a\":\"b"), 7);
    assert_eq!(error_index("[1, 2"), 5);
    assert_eq!(error_index("{\"a\":1"), 6);
    assert_eq!(error_index("[1"), 2);
}

#[test]
fn strings_keep_escapes() {
    let parsed = parse("[\"a\\\"b\", \"c\\\\\", \"é\"]").unwrap();
    assert_eq!(parsed[0].as_str(), Some("a\\\"b"));
    assert_eq!(parsed[1].as_str(), Some("c\\\\"));
    assert_eq!(parsed[2].as_str(), Some("é"));
    assert_eq!(parsed[2].get_slice().beginning, 17);
    assert_eq!(parsed[2].get_slice().end, 19);
}

#[test]
fn composite_text_and_span() {
    let source = "  {\"k\": [1, {\"x\": null}]} trailing";
    let parsed = parse(source).unwrap();
    assert_eq!(parsed.get_type(), &JsonType::JsonMap);
    assert_eq!(parsed.raw_text(), Some("{\"k\": [1, {\"x\": null}]}"));
    assert_eq!(parsed.get_slice(), &Slice::from(2, 25));
    assert_eq!(parsed["k"].raw_text(), Some("[1, {\"x\": null}]"));
    assert!(parsed["k"][1]["x"].is_null());
    assert_eq!(parsed.as_str(), None);
}

#[test]
fn empty_containers() {
    let parsed = parse("[[], {}]").unwrap();
    assert!(parsed[0].elements().unwrap().next().is_none());
    assert!(parsed[1].entries().unwrap().next().is_none());
    assert!(parsed[0].entries().is_none());
    assert!(parsed[1].elements().is_none());
}

#[test]
fn error_extract() {
    let source = "{\"test\": \"num\", \"int\":234[] ,,}";
    match parse(source) {
        Ok(_) => panic!("expected an error"),
        Err(e) => {
            assert_eq!(e.get_index(), 25);
            assert_eq!(e.get_extract(), &Some("int\":234[] ,,}".to_string()));
            assert_eq!(e.message(), "JSON error near 'int\":234[] ,,}': index 25 in data");
        }
    }
    match parse("") {
        Ok(_) => panic!("expected an error"),
        Err(e) => assert_eq!(e.get_extract(), &Some(String::new())),
    }
}

#[test]
fn error_extract_omitted_inside_a_character() {
    let source = "[\"é\",\"12\", x]";
    match parse(source) {
        Ok(_) => panic!("expected an error"),
        Err(e) => {
            assert_eq!(e.get_index(), 12);
            assert_eq!(e.get_extract(), &Some("\",\"12\", x]".to_string()));
        }
    }
    let source = "[\"é\", x]";
    match parse(source) {
        Ok(_) => panic!("expected an error"),
        Err(e) => {
            assert_eq!(e.get_index(), 7);
            assert_eq!(e.get_extract(), &Some("[\"é\", x]".to_string()));
        }
    }
    // Eight bytes before offset 12 is the second byte of "é".
    let source = "[\"aé\", 12, x]";
    match parse(source) {
        Ok(_) => panic!("expected an error"),
        Err(e) => {
            assert_eq!(e.get_index(), 12);
            assert_eq!(e.get_extract(), &None);
            assert_eq!(e.message(), "JSON error at index 12 in data");
        }
    }
}

#[test]
fn keys_compare_by_bytes() {
    let a = Key::from_str("alpha");
    let b = Key::from_str("alpha");
    let c = Key::from_str("alphb");
    let d = Key::from_str("alpha-long-key");
    assert!(a == b);
    assert!(a != c);
    assert!(a != d);
    assert_eq!(a.as_str(), "alpha");
}

#[test]
fn parser_reads_from_its_cursor() {
    let mut parser = JsonParser::new("  [true] ");
    let parsed = parser.parse().unwrap();
    assert_eq!(parsed[0].as_bool(), Some(true));
    assert_eq!(parsed.get_slice(), &Slice::from(2, 8));
}

#[test]
fn slices() {
    assert_eq!(Slice::empty(), Slice::from(0, 0));
    assert_eq!(Slice::from_str("héllo"), Slice::from(0, 6));
}
