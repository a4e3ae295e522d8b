use bilbo::json::{parse, parse_string, skip_ws, try_parse, Json};

fn text(j: &Json) -> String {
    format!("{j:?}")
}

#[test]
fn every_kind_of_value() {
    let j = parse(r#" {"s": "a", "n": -1.5e3, "t": true, "f": false, "z": null, "l": [1, [], {}]} "#);
    assert_eq!(j.get("s").unwrap().as_str(), "a");
    assert!(matches!(j.get("n"), Some(Json::Num(n)) if n == "-1.5e3"));
    assert!(matches!(j.get("t"), Some(Json::Bool(true))));
    assert!(matches!(j.get("f"), Some(Json::Bool(false))));
    assert!(matches!(j.get("z"), Some(Json::Null)));
    assert!(matches!(j.get("l"), Some(Json::Array(items)) if items.len() == 3));
    assert!(j.get("missing").is_none());
}

#[test]
fn numbers_are_read_when_they_are_asked_for() {
    assert_eq!(parse("340282366920938463463374607431768211455").as_u128(), u128::MAX);
    assert_eq!(parse("-170141183460469231731687303715884105728").as_i128(), i128::MIN);
    assert_eq!(parse("340282366920938463463374607431768211456").try_u128(), None);
    assert_eq!(parse("-1").try_u128(), None);
    assert_eq!(parse("1.5").try_i128(), None);
    assert_eq!(parse("\"1\"").as_u128(), 1);
    assert_eq!(parse("\"-1\"").as_i128(), -1);
    assert_eq!(parse("true").as_u128(), 1);
    assert_eq!(parse("true").try_i128(), None);
    assert_eq!(parse("null").try_u128(), None);
}

#[test]
fn strings_and_their_escapes() {
    assert_eq!(parse(r#""a\"b\\c\/d\n\te\r""#).as_str(), "a\"b\\c/d\n\ter");
    assert_eq!(parse("\"🦀 ä\"").as_str(), "🦀 ä");
    assert_eq!(parse("\"\"").as_str(), "");
    assert_eq!(parse("1").try_str(), None);
}

#[test]
fn white_space_before_a_value_does_not_matter() {
    assert_eq!(text(&parse(" \t\r\n[1]")), text(&parse("[1]")));
}

#[test]
fn a_comma_may_trail() {
    assert_eq!(text(&parse("[1, 2,]")), text(&parse("[1, 2]")));
    assert_eq!(text(&parse(r#"{"a": 1,}"#)), text(&parse(r#"{"a": 1}"#)));
}

#[test]
fn a_word_is_told_by_its_first_letter() {
    assert!(matches!(parse("nothing"), Json::Null));
    assert!(matches!(parse("[t___1]"), Json::Array(items) if items.len() == 2));
}

#[test]
fn the_first_of_two_members_is_found() {
    assert_eq!(parse(r#"{"a": 1, "a": 2}"#).get("a").unwrap().as_u128(), 1);
    assert!(parse("[1]").get("a").is_none());
}

#[test]
fn what_is_no_value_is_refused() {
    for bad in ["", "{", "[", "[1", "\"a", "{\"a\"", "{\"a\" 1}", "{1: 2}"] {
        assert!(try_parse(bad).is_none(), "{bad:?}");
    }
}

#[test]
fn a_literal_comes_back_wherever_it_stands() {
    // Only quotes and backslashes are escaped; a tab and a line feed stand for themselves.
    assert_eq!(parse("\"a\\\"b\\\\c\t\nä\"]}").as_str(), "a\"b\\c\t\nä");
    let j = parse("[1, \"\\\\\", \"\\\"\"]");
    assert!(matches!(j, Json::Array(items) if items[1].as_str() == "\\" && items[2].as_str() == "\""));
}

#[test]
fn white_space_between_tokens_does_not_matter() {
    let compact = r#"{"a":[1,-2.5e3,"x\"y",{"b":null}],"c":true,"d":{},"e":[]}"#;
    let spaced = " { \"a\"\t:\n[ 1 ,\r-2.5e3\u{c}, \"x\\\"y\" , { \"b\" : null } ] , \"c\" : true , \"d\" : { } , \"e\" : [ ] }";
    assert_eq!(text(&parse(compact)), text(&parse(spaced)));
    let members = match parse(compact) {
        Json::Object(members) => members.iter().map(|(k, _)| k.clone()).collect::<Vec<_>>(),
        other => panic!("{other:?}"),
    };
    assert_eq!(members, ["a", "c", "d", "e"]);
}

#[test]
fn what_follows_the_first_value_is_not_looked_at() {
    for s in ["{\"a\": [1, 2]}", "[1, \"]\"]", "\"x\"", "true", "false", "null"] {
        for rest in ["", "]", " , 7", "\"", "{"] {
            assert_eq!(text(&parse(&format!("\n {s}{rest}"))), text(&parse(s)));
        }
    }
}

#[test]
fn the_scanner_and_the_parser_end_at_the_same_place() {
    for s in [r#"{"a\"}": [1, "\\", {"]": "\""}], "c": null}"#, r#"["}", "\"]", []]"#, "-1.5e3", "true"] {
        let input = format!("  {s}, 2");
        assert_eq!(bilbo::scan::rt_skip(input.as_bytes(), 0), s.len() + 2);
        assert_eq!(text(&parse(&input)), text(&parse(s)));
    }
}

#[test]
fn white_space_is_passed_over_once() {
    let b = b" \t\r\n\x0c x ";
    let mut i = 0;
    skip_ws(b, &mut i);
    assert_eq!(i, 6);
    skip_ws(b, &mut i);
    assert_eq!(i, 6);
    i = 7;
    skip_ws(b, &mut i);
    assert_eq!(i, 8);
    i = 20;
    skip_ws(b, &mut i);
    assert_eq!(i, 20);
}

#[test]
fn a_literal_comes_back_and_is_passed() {
    let b = b"x\"a\\n\\\"b\" rest";
    let mut i = 1;
    assert_eq!(parse_string(b, &mut i).unwrap(), "a\n\"b");
    assert_eq!(i, 9);
    assert_eq!(parse_string(b, &mut 0), None);
    assert_eq!(parse_string(b, &mut 40), None);
    assert_eq!(parse_string(b"\"open", &mut 0), None);
}

#[test]
fn members_are_found_in_any_order() {
    let a = parse(r#"{"x": 1, "y": [2], "z": null}"#);
    let b = parse(r#"{"z": null, "other": {}, "x": 1, "y": [2]}"#);
    for key in ["x", "y", "z"] {
        assert_eq!(text(a.get(key).unwrap()), text(b.get(key).unwrap()));
    }
}
