use jsonic::parse;

const CORRECT_JSON: &str = " {\n\"test\": \"why not?\",\"b\": true,\"another\":  \"hey#çà@â&éè\" \r ,\"obj2\":{\"k\":{\"k2\":\"v\"}} \"num\":4.2344, \"int\":-234,  \"obj\":{\"a\":\"b\", \"c\":\"d\"}, \"arr\":[1,2,3],\"bool\":false, \"exp\":3.3e-21, \"exp2\":-4.5e-213,\"exp3\":3.7391238e+24,\"depth\":[\"a\",[\"b\",\"c\"]]}  ";
const INCORRECT_JSON: &str = "{\"test\": \"num\", \"int\":234[] ,,}";

#[test]
fn parse_correct() {
    match parse(CORRECT_JSON) {
        Ok(_) => {
            assert!(true);
        }
        Err(error) => {
            assert!(false, "{:?}", error);
        }
    }
}

#[test]
fn parse_incorrect() {
    match parse(INCORRECT_JSON) {
        Ok(_) => {
            assert!(false);
        }
        Err(_) => {
            assert!(true);
        }
    }
}

#[test]
fn parse_string() {
    match parse(CORRECT_JSON) {
        Ok(parsed) => {
            assert_eq!(parsed["test"].as_str(), Some("why not?"));
        }
        Err(error) => {
            assert!(false, "{:?}", error);
        }
    }
}

#[test]
fn parse_int() {
    match parse(CORRECT_JSON) {
        Ok(parsed) => {
            assert_eq!(parsed["int"].as_i128(), Some(-234));
        }
        Err(error) => {
            assert!(false, "{:?}", error);
        }
    }
}

#[test]
fn parse_object() {
    match parse(CORRECT_JSON) {
        Ok(parsed) => {
            assert_eq!(parsed["obj"]["a"].as_str(), Some("b"));
        }
        Err(error) => {
            assert!(false, "{:?}", error);
        }
    }
}

#[test]
fn parse_object_depth() {
    match parse(CORRECT_JSON) {
        Ok(parsed) => {
            assert_eq!(parsed["obj2"]["k"]["k2"].as_str(), Some("v"));
        }
        Err(error) => {
            assert!(false, "{:?}", error);
        }
    }
}

#[test]
fn traverse_object() {
    match parse(CORRECT_JSON) {
        Ok(parsed) => {
            let mut iterator = parsed["obj"].entries().unwrap();
            let (k, v) = iterator.next().unwrap();
            assert_eq!(k, "a");
            assert_eq!(v.as_str(), Some("b"));
            let (k, v) = iterator.next().unwrap();
            assert_eq!(k, "c");
            assert_eq!(v.as_str(), Some("d"));
        }
        Err(error) => {
            assert!(false, "{:?}", error);
        }
    }
}

#[test]
fn parse_array() {
    match parse(CORRECT_JSON) {
        Ok(parsed) => {
            assert_eq!(parsed["arr"][1].as_i128(), Some(2));
        }
        Err(error) => {
            assert!(false, "{:?}", error);
        }
    }
}

#[test]
fn parse_array_depth() {
    match parse(CORRECT_JSON) {
        Ok(parsed) => {
            assert_eq!(parsed["depth"][1][1].as_str(), Some("c"));
        }
        Err(error) => {
            assert!(false, "{:?}", error);
        }
    }
}

#[test]
fn traverse_array() {
    match parse(CORRECT_JSON) {
        Ok(parsed) => {
            let mut iterator = parsed["arr"].elements().unwrap();
            assert_eq!(iterator.next().unwrap().as_i128(), Some(1));
            assert_eq!(iterator.next().unwrap().as_i128(), Some(2));
            assert_eq!(iterator.next().unwrap().as_i128(), Some(3));
        }
        Err(error) => {
            assert!(false, "{:?}", error);
        }
    }
}

#[test]
fn parse_bool() {
    match parse(CORRECT_JSON) {
        Ok(parsed) => {
            assert_eq!(parsed["bool"].as_bool(), Some(false));
        }
        Err(error) => {
            assert!(false, "{:?}", error);
        }
    }
}

#[test]
fn missing_key() {
    match parse(CORRECT_JSON) {
        Ok(parsed) => {
            assert_eq!(parsed["a"].is_present(), false);
        }
        Err(error) => {
            assert!(false, "{:?}", error);
        }
    }
}

#[test]
fn missing_key_get_value() {
    match parse(CORRECT_JSON) {
        Ok(parsed) => {
            match parsed["a"][1].as_i128() {
                None => {
                    assert!(true);
                }
                Some(_) => {
                    assert!(false);
                }
            }
        }
        Err(error) => {
            assert!(false, "{:?}", error);
        }
    }
}

fn float_of(text: Option<&str>) -> Option<f64> {
    text?.parse::<f64>().ok()
}

#[test]
fn parse_float() {
    match parse(CORRECT_JSON) {
        Ok(parsed) => {
            assert_eq!(float_of(parsed["num"].raw_text()), Some(4.2344));
        }
        Err(error) => {
            assert!(false, "{:?}", error);
        }
    }
}

#[test]
fn parse_exp() {
    match parse(CORRECT_JSON) {
        Ok(parsed) => {
            match float_of(parsed["exp"].raw_text()) {
                None => {
                    assert!(false);
                }
                Some(value) => {
                    assert!(f64::abs(value / 3.3e-21 - 1.0) < 1e-8);
                }
            }
        }
        Err(error) => {
            assert!(false, "{:?}", error);
        }
    }
}

#[test]
fn parse_exp_3_digits() {
    match parse(CORRECT_JSON) {
        Ok(parsed) => {
            match float_of(parsed["exp2"].raw_text()) {
                None => {
                    assert!(false);
                }
                Some(value) => {
                    assert!(f64::abs(value / -4.5e-213 - 1.0) < 1e-8);
                }
            }
        }
        Err(error) => {
            assert!(false, "{:?}", error);
        }
    }
}
