use nginx_log_parser::format::FormatPart::{Fixed, Variable};
use nginx_log_parser::format::{read_format, Format, FormatParserError, FormatPart};
use regex::Regex;
use std::str::FromStr;

fn variable(name: &str) -> FormatPart {
    Variable(String::from(name))
}

fn fixed(text: &str) -> FormatPart {
    Fixed(String::from(text))
}

#[test]
fn status_is_three_digits() {
    assert_eq!(r"(?P<status>\d{3})", variable("status").get_pattern());
}

#[test]
fn body_bytes_sent_is_digits() {
    assert_eq!(
        r"(?P<body_bytes_sent>\d+)",
        variable("body_bytes_sent").get_pattern()
    );
}

#[test]
fn any_other_field_is_anything() {
    assert_eq!("(?P<request>.*)", variable("request").get_pattern());
    assert_eq!("(?P<remote_addr>.*)", variable("remote_addr").get_pattern());
    assert_eq!("(?P<Status>.*)", variable("Status").get_pattern());
    assert_eq!("(?P<statu>.*)", variable("statu").get_pattern());
    assert_eq!("(?P<status_>.*)", variable("status_").get_pattern());
    assert_eq!("(?P<body_bytes>.*)", variable("body_bytes").get_pattern());
    assert_eq!("(?P<>.*)", variable("").get_pattern());
}

#[test]
fn plain_text_is_its_own_pattern() {
    assert_eq!("GET / HTTP/1", fixed("GET / HTTP/1").get_pattern());
    assert_eq!("", fixed("").get_pattern());
    assert_eq!("\"", fixed("\"").get_pattern());
}

#[test]
fn meta_characters_are_escaped() {
    assert_eq!(r" \[", fixed(" [").get_pattern());
    assert_eq!(r"\] ", fixed("] ").get_pattern());
    assert_eq!(r"a\.b", fixed("a.b").get_pattern());
    assert_eq!(
        r"\\\.\+\*\?\(\)\|\[\]\{\}\^\$\#\&\-\~",
        fixed(r"\.+*?()|[]{}^$#&-~").get_pattern()
    );
    assert_eq!("größe€%/!\"'<>=,:;@`_", fixed("größe€%/!\"'<>=,:;@`_").get_pattern());
}

#[test]
fn the_pattern_is_the_fragments_in_order() {
    let format = Format::new("$remote_addr [$time_local] $status $body_bytes_sent").unwrap();
    assert_eq!(
        r"(?P<remote_addr>.*) \[(?P<time_local>.*)\] (?P<status>\d{3}) (?P<body_bytes_sent>\d+)",
        format.pattern()
    );
}

#[test]
fn the_pattern_of_fields_side_by_side() {
    let format = Format::new("$a$b").unwrap();
    assert_eq!("(?P<a>.*)(?P<b>.*)", format.pattern());
}

#[test]
fn the_pattern_of_plain_text_is_the_text_escaped() {
    let format = Format::new("GET /index.html?x=1 (cached)").unwrap();
    assert_eq!(
        &vec![fixed("GET /index.html?x=1 (cached)")],
        format.parts()
    );
    assert_eq!(r"GET /index\.html\?x=1 \(cached\)", format.pattern());
}

#[test]
fn the_pattern_of_the_empty_format_is_empty() {
    let format = Format::new("").unwrap();
    assert!(format.parts().is_empty());
    assert_eq!("", format.pattern());
    assert!(format.parse("").is_some());
    assert!(format.parse("anything").is_none());
    assert!(format.parse(" ").is_none());
}

#[test]
fn the_pattern_is_given_without_its_anchors() {
    let format = Format::new("$a|$b").unwrap();
    assert_eq!(r"(?P<a>.*)\|(?P<b>.*)", format.pattern());
    assert!(!format.pattern().contains(r"\A"));
    assert!(!format.pattern().contains(r"\z"));
}

#[test]
fn from_parts_keeps_the_parts() {
    let format = Format::from_parts(vec![variable("a"), fixed(" - "), variable("status")]).unwrap();
    assert_eq!(
        &vec![variable("a"), fixed(" - "), variable("status")],
        format.parts()
    );
    assert_eq!(r"(?P<a>.*) \- (?P<status>\d{3})", format.pattern());
}

#[test]
fn from_parts_takes_any_text_as_fixed() {
    let format = Format::from_parts(vec![fixed("$9.99 (each)")]).unwrap();
    assert_eq!(r"\$9\.99 \(each\)", format.pattern());
    assert!(format.parse("$9.99 (each)").is_some());
    assert!(format.parse("$9x99 (each)").is_none());
    assert!(format.parse("price: $9.99 (each)").is_none());
    assert!(format.parse("$9.99 (each)!").is_none());
}

#[test]
fn the_anchors_hold_the_whole_pattern() {
    let format = Format::from_parts(vec![fixed("a|b"), variable("x")]).unwrap();
    assert_eq!(Some("1"), format.parse("a|b1").unwrap().get("x"));
    assert!(format.parse("a").is_none());
    assert!(format.parse("b1").is_none());
    assert!(format.parse("a|b1\n").is_none());
}

#[test]
fn a_field_without_a_name_does_not_compile() {
    assert!(matches!(
        Format::new("$"),
        Err(FormatParserError::CompilationFailed { .. })
    ));
    assert!(matches!(
        Format::new("$remote_addr $ $request"),
        Err(FormatParserError::CompilationFailed { .. })
    ));
    assert!(matches!(
        Format::from_parts(vec![variable("")]),
        Err(FormatParserError::CompilationFailed { .. })
    ));
    for format in ["cost: $", "$$x", "$x$", "$ x", "$1", "$-$"] {
        assert!(matches!(
            Format::new(format),
            Err(FormatParserError::CompilationFailed { .. })
        ));
    }
}

#[test]
fn in_a_format_that_was_accepted_every_field_has_a_name_of_its_own() {
    for format in [
        "$a",
        "$a$b",
        "$remote_addr - $remote_user [$time_local]",
        "x$status y$Status",
    ] {
        let format = Format::new(format).unwrap();
        let mut names = Vec::new();
        for part in format.parts() {
            if let Variable(name) = part {
                assert!(!name.is_empty());
                assert!(!names.contains(name));
                names.push(name.clone());
            }
        }
    }
}

#[test]
fn a_name_used_twice_does_not_compile() {
    assert!(matches!(
        Format::new("$request $request"),
        Err(FormatParserError::CompilationFailed { .. })
    ));
}

#[test]
fn a_name_that_is_no_group_name_does_not_compile() {
    assert!(matches!(
        Format::from_parts(vec![variable("a b")]),
        Err(FormatParserError::CompilationFailed { .. })
    ));
}

#[test]
fn the_error_is_that_of_the_engine() {
    let expected = Regex::new(r"\A(?:(?P<>.*))\z").unwrap_err();
    match Format::new("$") {
        Err(FormatParserError::CompilationFailed { inner }) => assert_eq!(expected, inner),
        other => panic!("unexpected: {:?}", other.map(|format| format.pattern().to_owned())),
    }
}

#[test]
fn from_compiled_wraps_the_regex() {
    let parts = vec![variable("a"), fixed("-"), variable("b")];
    let pattern = String::from(r"(?P<a>.*)\-(?P<b>.*)");
    let compiled = Regex::new(r"\A(?:(?P<a>.*)\-(?P<b>.*))\z");
    let format = Format::from_compiled(parts, pattern, compiled).unwrap();
    assert_eq!(&vec![variable("a"), fixed("-"), variable("b")], format.parts());
    assert_eq!(r"(?P<a>.*)\-(?P<b>.*)", format.pattern());
    let entry = format.parse("left-right").unwrap();
    assert_eq!(Some("left"), entry.get("a"));
    assert_eq!(Some("right"), entry.get("b"));
}

#[test]
fn from_compiled_wraps_the_error() {
    let expected = Regex::new(r"\A(?:(?P<>.*))\z").unwrap_err();
    let compiled = Regex::new(r"\A(?:(?P<>.*))\z");
    match Format::from_compiled(vec![variable("")], String::from("(?P<>.*)"), compiled) {
        Err(FormatParserError::CompilationFailed { inner }) => assert_eq!(expected, inner),
        _ => panic!("unexpected"),
    }
}

#[test]
fn from_parts_compiles_as_from_compiled_is_handed() {
    let made = Format::from_parts(vec![variable("a"), fixed("-"), variable("b")]).unwrap();
    let handed = Format::from_compiled(
        vec![variable("a"), fixed("-"), variable("b")],
        String::from(r"(?P<a>.*)\-(?P<b>.*)"),
        Regex::new(r"\A(?:(?P<a>.*)\-(?P<b>.*))\z"),
    )
    .unwrap();
    assert_eq!(made.pattern(), handed.pattern());
    for line in ["left-right", "-", "x left-right", "left-right\n", "", "a-b-c"] {
        let one = made.parse(line);
        let other = handed.parse(line);
        assert_eq!(one.is_some(), other.is_some());
        if let (Some(one), Some(other)) = (one, other) {
            assert_eq!(one.get("a"), other.get("a"));
            assert_eq!(one.get("b"), other.get("b"));
        }
    }
}

#[test]
fn read_format_reads_bytes() {
    let format = read_format(b"$remote_addr - $status").unwrap();
    assert_eq!(
        &vec![variable("remote_addr"), fixed(" - "), variable("status")],
        format.parts()
    );
    assert_eq!(r"(?P<remote_addr>.*) \- (?P<status>\d{3})", format.pattern());
}

#[test]
fn read_format_refuses_bytes_that_are_no_utf8_before_it_compiles() {
    let bytes = [b'$', b' ', 0xff];
    let expected = std::str::from_utf8(&bytes[1..3]).unwrap_err();
    match read_format(&bytes) {
        Err(FormatParserError::StringConversionError { inner }) => assert_eq!(expected, inner),
        _ => panic!("unexpected"),
    }
}

#[test]
fn read_format_gives_the_error_of_the_engine() {
    assert!(matches!(
        read_format(b"$a $a"),
        Err(FormatParserError::CompilationFailed { .. })
    ));
}

#[test]
fn a_format_can_be_parsed_from_a_str() {
    let format: Format = "$remote_addr $status".parse().unwrap();
    assert_eq!(
        &vec![variable("remote_addr"), fixed(" "), variable("status")],
        format.parts()
    );
    let same = Format::from_str("$remote_addr $status").unwrap();
    assert_eq!(format.parts(), same.parts());
    assert_eq!(format.pattern(), same.pattern());
    let again = Format::new("$remote_addr $status").unwrap();
    assert_eq!(format.parts(), again.parts());
    assert_eq!(format.pattern(), again.pattern());
}
