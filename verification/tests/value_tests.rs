use axconfig_gen::{ConfigErr, ConfigType, ConfigValue};

fn check_type_infer(value: &str, expect_ty: &str) {
    let value = ConfigValue::new(value).unwrap();
    let expect = if expect_ty == "?" {
        ConfigType::Unknown
    } else {
        ConfigType::new(expect_ty).unwrap()
    };
    let inferred = value.inferred_type().unwrap();
    assert_eq!(inferred, expect);
}

#[test]
fn test_type_infer() {
    check_type_infer("true", "bool");
    check_type_infer("false", "bool");

    check_type_infer("0", "uint");
    check_type_infer("2333", "uint");
    check_type_infer("-2333", "int");
    check_type_infer("0b1010", "uint");
    check_type_infer("0xdead_beef", "uint");

    check_type_infer("\"0xffff_ffff_ffff_ffff\"", "uint");
    check_type_infer("\"hello, world!\"", "str");
    check_type_infer("\"0o777\"", "uint");
    check_type_infer("\"0xx233\"", "str");
    check_type_infer("\"\"", "str");

    check_type_infer("[1, 2, 3]", "[uint]");
    check_type_infer("[\"1\", \"2\", \"3\"]", "[uint]");
    check_type_infer("[\"a\", \"b\", \"c\"]", "[str]");
    check_type_infer("[true, false, true]", "[bool]");
    check_type_infer("[\"0\", \"a\", true, -2]", "(uint, str, bool, int)");
    check_type_infer("[]", "?");
    check_type_infer("[[]]", "?");
    check_type_infer("[[2, 3, 3, 3], [4, 5, 6, 7]]", "[[uint]]");
    check_type_infer("[[1], [2, 3], [4, 5, 6]]", "[[uint]]");
    check_type_infer(
        "[[2, 3, 3], [4, 5, \"abc\", 7]]",
        "([uint], (uint, uint, str, uint))",
    );
}

fn check_match(value: &str, ty: &str) {
    ConfigValue::new_with_type(value, ty).unwrap();
}

fn check_mismatch(value: &str, ty: &str) {
    assert!(matches!(
        ConfigValue::new_with_type(value, ty),
        Err(ConfigErr::ValueTypeMismatch(_, _))
    ));
}

#[test]
fn test_type_match() {
    check_match("true", "bool");
    check_match("false", "bool");
    check_mismatch("true", "int");

    check_match("0", "uint");
    check_match("0", "int");
    check_match("2333", "int");
    check_match("-2333", "uint");
    check_match("0b1010", "int");
    check_match("0xdead_beef", "int");

    check_mismatch("\"abc\"", "uint");
    check_match("\"0xffff_ffff_ffff_ffff\"", "uint");
    check_match("\"0xffff_ffff_ffff_ffff\"", "str");
    check_match("\"hello, world!\"", "str");
    check_match("\"0o777\"", "uint");
    check_match("\"0xx233\"", "str");
    check_match("\"\"", "str");

    check_match("[1, 2, 3]", "[uint]");
    check_match("[\"1\", \"2\", \"3\"]", "[uint]");
    check_match("[\"1\", \"2\", \"3\"]", "[str]");
    check_match("[true, false, true]", "[bool]");
    check_match("[\"0\", \"a\", true, -2]", "(uint, str, bool, int)");
    check_mismatch("[\"0\", \"a\", true, -2]", "[uint]");
    check_match("[]", "[int]");
    check_match("[[]]", "[()]");
    check_match("[[2, 3, 3, 3], [4, 5, 6, 7]]", "[[uint]]");
    check_match("[[2, 3, 3, 3], [4, 5, 6, 7]]", "[(int, int, int, int)]");
    check_match("[[1], [2, 3], [4, 5, 6]]", "[[uint]]");
    check_match("[[1], [2, 3], [4, 5, 6]]", "([uint],[uint],[uint])");
    check_match("[[1], [2, 3], [4, 5, 6]]", "((uint),(uint, uint),[uint])");
    check_match(
        "[[2, 3, 3], [4, 5, \"abc\", 7]]",
        "((int, int, int), (uint, uint, str, uint))",
    );
    check_match("[[1,2], [3,4], [5,6,7]]", "[[uint]]");
    check_match("[[1,2], [3,4], [5,6,7]]", "([uint], [uint], [uint])");
    check_match("[[1,2], [3,4], [5,6,7]]", "((uint,uint), [uint], [uint])");
    check_mismatch("[[1,2], [3,4], [5,6,7]]", "[(uint, uint)]");
    check_match("[[[[],[]],[[]]],[]]", "[[[[uint]]]]");
}

#[test]
fn test_err() {
    assert!(matches!(ConfigType::new("Bool"), Err(ConfigErr::InvalidType)));
    assert!(matches!(ConfigType::new("usize"), Err(ConfigErr::InvalidType)));
    assert!(matches!(ConfigType::new(""), Err(ConfigErr::InvalidType)));
    assert!(matches!(ConfigType::new("&str"), Err(ConfigErr::InvalidType)));
    assert!(matches!(ConfigType::new("[]"), Err(ConfigErr::InvalidType)));
    assert!(matches!(ConfigType::new("(("), Err(ConfigErr::InvalidType)));
    assert!(matches!(ConfigType::new("(int,"), Err(ConfigErr::InvalidType)));
    assert!(matches!(ConfigType::new("(,)"), Err(ConfigErr::InvalidType)));
    assert!(matches!(ConfigType::new("(uint,)"), Err(ConfigErr::InvalidType)));
    assert!(matches!(
        ConfigType::new("[uint, uint]"),
        Err(ConfigErr::InvalidType)
    ));
    assert!(matches!(ConfigType::new("()()"), Err(ConfigErr::InvalidType)));
    assert!(matches!(ConfigType::new("(()())"), Err(ConfigErr::InvalidType)));
    assert!(ConfigType::new("((),())").is_ok());
    assert!(ConfigType::new("(  )").is_ok());
    assert!(matches!(ConfigValue::new("233.0"), Err(ConfigErr::InvalidValue)));
}

#[test]
fn test_invalid_values_rejected_at_depth() {
    assert!(matches!(ConfigValue::new("[1, 2.5]"), Err(ConfigErr::InvalidValue)));
    assert!(matches!(
        ConfigValue::new("[[true], [1.5]]"),
        Err(ConfigErr::InvalidValue)
    ));
    assert!(matches!(
        ConfigValue::new("1979-05-27"),
        Err(ConfigErr::InvalidValue)
    ));
    assert!(matches!(
        ConfigValue::new_with_type("[1, 2.5]", "[uint]"),
        Err(ConfigErr::InvalidValue)
    ));
}

#[test]
fn test_to_toml_text() {
    assert_eq!(ConfigValue::new("-42").unwrap().to_toml(), "-42");
    assert_eq!(ConfigValue::new("true").unwrap().to_toml(), "true");
    assert_eq!(
        ConfigValue::new("\"hello\"").unwrap().to_toml(),
        "\"hello\""
    );
    assert_eq!(
        ConfigValue::new("[1, 2, 3]").unwrap().to_toml(),
        "[1, 2, 3]"
    );
    assert_eq!(
        ConfigValue::new("0xdead_beef").unwrap().to_toml(),
        "3735928559"
    );
}

#[test]
fn test_type_annotation_text() {
    let t = ConfigType::new("( uint, [str],bool )").unwrap();
    assert_eq!(t.to_annot_string(), "(uint, [str], bool)");
    assert_eq!(t.to_rust_type(), "(usize, &[&str], bool)");
}
