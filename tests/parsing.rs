use ini::text::trim_bounds;
use ini::value::infer_value;
use ini::{Ini, IniError, IniValue};

fn lines(text: &[&str]) -> Vec<String> {
    text.iter().map(|l| l.to_string()).collect()
}

fn parse(text: &[&str]) -> Result<Ini, IniError> {
    Ini::read(&lines(text))
}

#[test]
fn integer_text_is_integer() {
    assert_eq!(infer_value("42"), IniValue::Integer(42));
    assert_eq!(infer_value("-7"), IniValue::Integer(-7));
    assert_eq!(infer_value("+5"), IniValue::Integer(5));
    assert_eq!(infer_value("007"), IniValue::Integer(7));
    assert_eq!(infer_value("2147483647"), IniValue::Integer(2147483647));
    assert_eq!(infer_value("-2147483648"), IniValue::Integer(-2147483648));
}

#[test]
fn integer_out_of_range_is_float() {
    assert_eq!(infer_value("2147483648"), IniValue::Float("2147483648".to_string()));
    assert_eq!(infer_value("-2147483649"), IniValue::Float("-2147483649".to_string()));
}

#[test]
fn float_texts() {
    assert_eq!(infer_value("3.14"), IniValue::Float("3.14".to_string()));
    assert_eq!(infer_value(".5"), IniValue::Float(".5".to_string()));
    assert_eq!(infer_value("5."), IniValue::Float("5.".to_string()));
    assert_eq!(infer_value("1e5"), IniValue::Float("1e5".to_string()));
    assert_eq!(infer_value("-2.5E-3"), IniValue::Float("-2.5E-3".to_string()));
    assert_eq!(infer_value("inf"), IniValue::Float("inf".to_string()));
    assert_eq!(infer_value("-Infinity"), IniValue::Float("-Infinity".to_string()));
    assert_eq!(infer_value("NaN"), IniValue::Float("NaN".to_string()));
}

#[test]
fn float_texts_are_floats_in_std() {
    for t in ["3.14", ".5", "5.", "1e5", "-2.5E-3", "inf", "-Infinity", "NaN", "2147483648"] {
        assert!(t.parse::<f32>().is_ok(), "{}", t);
    }
}

#[test]
fn not_floats() {
    assert_eq!(infer_value("."), IniValue::String(".".to_string()));
    assert_eq!(infer_value("e5"), IniValue::String("e5".to_string()));
    assert_eq!(infer_value("1e"), IniValue::String("1e".to_string()));
    assert_eq!(infer_value("1.2.3"), IniValue::String("1.2.3".to_string()));
    assert_eq!(infer_value("-"), IniValue::String("-".to_string()));
    assert_eq!(infer_value("infin"), IniValue::String("infin".to_string()));
    for t in [".", "e5", "1e", "1.2.3", "-", "infin"] {
        assert!(t.parse::<f32>().is_err(), "{}", t);
    }
}

#[test]
fn boolean_texts() {
    assert_eq!(infer_value("true"), IniValue::Bool(true));
    assert_eq!(infer_value("false"), IniValue::Bool(false));
    assert_eq!(infer_value("True"), IniValue::String("True".to_string()));
    assert_eq!(infer_value("TRUE"), IniValue::String("TRUE".to_string()));
}

#[test]
fn string_fallback() {
    assert_eq!(infer_value("hello"), IniValue::String("hello".to_string()));
    assert_eq!(infer_value(""), IniValue::String(String::new()));
}

#[test]
fn typed_values_in_a_document() {
    let ini = parse(&["a=42", "b=3.14", "c=true", "d=hello"]).unwrap();
    assert_eq!(ini.get("", "a"), Some(&IniValue::Integer(42)));
    assert_eq!(ini.get("", "b"), Some(&IniValue::Float("3.14".to_string())));
    assert_eq!(ini.get("", "c"), Some(&IniValue::Bool(true)));
    assert_eq!(ini.get("", "d"), Some(&IniValue::String("hello".to_string())));
}

#[test]
fn keys_before_header_go_to_unnamed_section() {
    let ini = parse(&["top=1", "[s]", "inner=2"]).unwrap();
    assert_eq!(ini.get("", "top"), Some(&IniValue::Integer(1)));
    assert_eq!(ini.get("s", "inner"), Some(&IniValue::Integer(2)));
    assert_eq!(ini.get("s", "top"), None);
    assert_eq!(ini.sections().len(), 2);
}

#[test]
fn later_key_overwrites() {
    let ini = parse(&["[s]", "key=1", "key=2"]).unwrap();
    assert_eq!(ini.get("s", "key"), Some(&IniValue::Integer(2)));
    assert_eq!(ini.section("s").unwrap().entries().len(), 1);
}

#[test]
fn reopened_section_merges() {
    let ini = parse(&["[a]", "x=1", "[b]", "y=2", "[a]", "z=3"]).unwrap();
    let a = ini.section("a").unwrap();
    assert_eq!(a.get("x"), Some(&IniValue::Integer(1)));
    assert_eq!(a.get("z"), Some(&IniValue::Integer(3)));
    assert_eq!(ini.sections().len(), 2);
}

#[test]
fn headers_in_a_row() {
    let ini = parse(&["[section]", "[other]"]).unwrap();
    assert!(ini.sections().is_empty());
    assert!(ini.section("section").is_none());
    let ini = parse(&["[section]", "[other]", "k=v"]).unwrap();
    assert!(ini.section("section").is_none());
    assert_eq!(ini.get("other", "k"), Some(&IniValue::String("v".to_string())));
}

#[test]
fn unterminated_header_fails() {
    assert_eq!(parse(&["[broken"]).unwrap_err(), IniError::UnterminatedSectionHeader);
    assert_eq!(parse(&["a=1", "["]).unwrap_err(), IniError::UnterminatedSectionHeader);
    assert_eq!(
        parse(&["[broken", "novalue"]).unwrap_err(),
        IniError::UnterminatedSectionHeader
    );
}

#[test]
fn missing_equals_fails() {
    assert_eq!(parse(&["novalue"]).unwrap_err(), IniError::MalformedKeyValue);
    assert_eq!(parse(&["a=1", "novalue", "[broken"]).unwrap_err(), IniError::MalformedKeyValue);
    assert_eq!(parse(&[" # not a comment"]).unwrap_err(), IniError::MalformedKeyValue);
}

#[test]
fn blank_and_comment_lines_are_skipped() {
    let plain = parse(&["[s]", "k=1"]).unwrap();
    let noisy = parse(&["", "# top", "[s]", "", "#k=9", "k=1", "#[broken", ""]).unwrap();
    assert_eq!(plain.sections().len(), noisy.sections().len());
    assert_eq!(noisy.get("s", "k"), Some(&IniValue::Integer(1)));
    assert_eq!(noisy.section("s").unwrap().entries().len(), 1);
    assert!(parse(&["", "#"]).unwrap().sections().is_empty());
}

#[test]
fn whitespace_around_key_and_value_is_stripped() {
    let ini = parse(&["  key  =  value  "]).unwrap();
    assert_eq!(ini.get("", "key"), Some(&IniValue::String("value".to_string())));
    let ini = parse(&["\tn\u{3000}= 12 \u{a0}"]).unwrap();
    assert_eq!(ini.get("", "n"), Some(&IniValue::Integer(12)));
}

#[test]
fn split_at_first_equals() {
    let ini = parse(&["a=b=c", "=empty", "e="]).unwrap();
    assert_eq!(ini.get("", "a"), Some(&IniValue::String("b=c".to_string())));
    assert_eq!(ini.get("", ""), Some(&IniValue::String("empty".to_string())));
    assert_eq!(ini.get("", "e"), Some(&IniValue::String(String::new())));
}

#[test]
fn header_name_is_kept_verbatim() {
    let ini = parse(&["[]", "a=1", "[ spaced name ]", "b=2"]).unwrap();
    assert_eq!(ini.get("", "a"), Some(&IniValue::Integer(1)));
    assert_eq!(ini.get(" spaced name ", "b"), Some(&IniValue::Integer(2)));
}

#[test]
fn empty_input_gives_empty_document() {
    let ini = parse(&[]).unwrap();
    assert!(ini.sections().is_empty());
    assert!(ini.section("").is_none());
}

#[test]
fn reading_twice_gives_the_same_document() {
    let text = ["[s]", "a=1", "b = x y ", "[t]", "c=2.0"];
    let one = parse(&text).unwrap();
    let two = parse(&text).unwrap();
    assert_eq!(format!("{:?}", one), format!("{:?}", two));
}

#[test]
fn section_queries() {
    let ini = parse(&["[s]", "k=1"]).unwrap();
    let s = ini.section("s").unwrap();
    assert!(!s.is_empty());
    assert_eq!(s.get("missing"), None);
    assert!(ini.section("t").is_none());
    let entries = s.entries();
    assert_eq!(entries[0].0, "k");
    assert_eq!(entries[0].1, IniValue::Integer(1));
}

#[test]
fn trim_bounds_strip_unicode_whitespace() {
    let s: Vec<char> = "\u{2003} ab c\u{85}\n".chars().collect();
    assert_eq!(trim_bounds(&s, 0, s.len()), (2, 6));
    let blank: Vec<char> = "  \t".chars().collect();
    let (a, b) = trim_bounds(&blank, 0, blank.len());
    assert_eq!(a, b);
}
