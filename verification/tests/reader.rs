use nginx_log_parser::format::FormatParserState::{Fixed as InFixed, Start, Variable as InVariable};
use nginx_log_parser::format::FormatPart::{Fixed, Variable};
use nginx_log_parser::format::{
    create_owned_str, is_var_char, read_byte, read_parts, FormatParserError, FormatPart,
};

fn variable(name: &str) -> FormatPart {
    Variable(String::from(name))
}

fn fixed(text: &str) -> FormatPart {
    Fixed(String::from(text))
}

#[test]
fn letters_and_underscore_are_name_bytes() {
    for byte in b'a'..=b'z' {
        assert!(is_var_char(byte));
    }
    for byte in b'A'..=b'Z' {
        assert!(is_var_char(byte));
    }
    assert!(is_var_char(b'_'));
}

#[test]
fn neighbours_of_the_letters_are_no_name_bytes() {
    for byte in [b'`', b'{', b'@', b'[', b'^', b'0', b'9', b'$', b' ', b'-', 0x00, 0x7f, 0x80, 0xff]
    {
        assert!(!is_var_char(byte));
    }
}

#[test]
fn name_bytes_are_counted_exactly() {
    let count = (0u8..=255).filter(|byte| is_var_char(*byte)).count();
    assert_eq!(53, count);
}

#[test]
fn start_goes_to_variable_on_dollar() {
    assert_eq!(InVariable(1, 1), read_byte(b'$', 0, &Start));
}

#[test]
fn start_goes_to_fixed_on_any_other_byte() {
    assert_eq!(InFixed(0, 1), read_byte(b'a', 0, &Start));
    assert_eq!(InFixed(0, 1), read_byte(b' ', 0, &Start));
    assert_eq!(InFixed(0, 1), read_byte(0xff, 0, &Start));
}

#[test]
fn variable_grows_on_name_bytes() {
    assert_eq!(InVariable(1, 2), read_byte(b'a', 1, &InVariable(1, 1)));
    assert_eq!(InVariable(4, 10), read_byte(b'_', 9, &InVariable(4, 9)));
    assert_eq!(InVariable(4, 10), read_byte(b'Z', 9, &InVariable(4, 9)));
}

#[test]
fn variable_restarts_on_dollar() {
    assert_eq!(InVariable(10, 10), read_byte(b'$', 9, &InVariable(4, 9)));
    assert_eq!(InVariable(2, 2), read_byte(b'$', 1, &InVariable(1, 1)));
}

#[test]
fn variable_gives_way_to_fixed() {
    assert_eq!(InFixed(9, 10), read_byte(b' ', 9, &InVariable(4, 9)));
    assert_eq!(InFixed(9, 10), read_byte(b'1', 9, &InVariable(4, 9)));
}

#[test]
fn fixed_grows_on_anything_but_dollar() {
    assert_eq!(InFixed(3, 8), read_byte(b'a', 7, &InFixed(3, 7)));
    assert_eq!(InFixed(3, 8), read_byte(b'_', 7, &InFixed(3, 7)));
    assert_eq!(InFixed(3, 8), read_byte(0xc3, 7, &InFixed(3, 7)));
}

#[test]
fn fixed_gives_way_to_variable() {
    assert_eq!(InVariable(8, 8), read_byte(b'$', 7, &InFixed(3, 7)));
}

#[test]
fn the_state_ignores_the_old_end() {
    assert_eq!(
        read_byte(b'x', 7, &InFixed(3, 7)),
        read_byte(b'x', 7, &InFixed(3, 5))
    );
    assert_eq!(
        read_byte(b'x', 7, &InVariable(3, 7)),
        read_byte(b'x', 7, &InVariable(3, 4))
    );
}

#[test]
fn owned_str_of_a_range() {
    let bytes = "$remote_addr - $status".as_bytes();
    assert_eq!("remote_addr", create_owned_str(bytes, 1, 12).unwrap());
    assert_eq!(" - ", create_owned_str(bytes, 12, 15).unwrap());
    assert_eq!("", create_owned_str(bytes, 5, 5).unwrap());
    assert_eq!(
        "$remote_addr - $status",
        create_owned_str(bytes, 0, bytes.len()).unwrap()
    );
}

#[test]
fn owned_str_decodes_utf8() {
    let bytes = "größe €".as_bytes();
    assert_eq!("größe €", create_owned_str(bytes, 0, bytes.len()).unwrap());
    assert_eq!("ö", create_owned_str(bytes, 2, 4).unwrap());
    assert_eq!("€", create_owned_str(bytes, 8, 11).unwrap());
}

#[test]
fn owned_str_refuses_half_a_character() {
    let bytes = "größe".as_bytes();
    match create_owned_str(bytes, 0, 3) {
        Err(FormatParserError::StringConversionError { inner }) => {
            assert_eq!(2, inner.valid_up_to());
            assert_eq!(None, inner.error_len());
        }
        other => panic!("unexpected: {:?}", other),
    }
    match create_owned_str(bytes, 3, 5) {
        Err(FormatParserError::StringConversionError { inner }) => {
            assert_eq!(0, inner.valid_up_to());
            assert_eq!(Some(1), inner.error_len());
        }
        other => panic!("unexpected: {:?}", other),
    }
}

#[test]
fn owned_str_carries_the_error_of_the_decoder() {
    let bytes = [b'a', b'b', 0xff, b'c'];
    let expected = std::str::from_utf8(&bytes[0..4]).unwrap_err();
    match create_owned_str(&bytes, 0, 4) {
        Err(FormatParserError::StringConversionError { inner }) => assert_eq!(expected, inner),
        other => panic!("unexpected: {:?}", other),
    }
}

#[test]
fn an_empty_format_has_no_parts() {
    assert_eq!(Vec::<FormatPart>::new(), read_parts(b"").unwrap());
}

#[test]
fn a_format_without_dollar_is_one_fixed_part() {
    assert_eq!(vec![fixed("GET / HTTP/1.1")], read_parts(b"GET / HTTP/1.1").unwrap());
    assert_eq!(vec![fixed("[.*]+?")], read_parts(b"[.*]+?").unwrap());
    assert_eq!(vec![fixed("a")], read_parts(b"a").unwrap());
}

#[test]
fn a_single_field() {
    assert_eq!(vec![variable("request")], read_parts(b"$request").unwrap());
}

#[test]
fn fields_side_by_side_stay_apart() {
    assert_eq!(
        vec![variable("remote_add"), variable("remote_user")],
        read_parts(b"$remote_add$remote_user").unwrap()
    );
    assert_eq!(
        vec![variable("a"), variable("b"), variable("c")],
        read_parts(b"$a$b$c").unwrap()
    );
}

#[test]
fn fields_and_text_alternate() {
    assert_eq!(
        vec![
            variable("remote_addr"),
            fixed(" ["),
            variable("time_local"),
            fixed("] "),
            variable("request"),
        ],
        read_parts(b"$remote_addr [$time_local] $request").unwrap()
    );
}

#[test]
fn text_before_the_first_field() {
    assert_eq!(
        vec![fixed("ip="), variable("remote_addr")],
        read_parts(b"ip=$remote_addr").unwrap()
    );
}

#[test]
fn a_name_ends_at_the_first_byte_that_is_no_name_byte() {
    assert_eq!(
        vec![variable("upstream"), fixed("1_time")],
        read_parts(b"$upstream1_time").unwrap()
    );
    assert_eq!(
        vec![variable("a"), fixed("-b")],
        read_parts(b"$a-b").unwrap()
    );
}

#[test]
fn a_bare_dollar_is_a_field_without_a_name() {
    assert_eq!(vec![variable("")], read_parts(b"$").unwrap());
    assert_eq!(vec![fixed("cost: "), variable("")], read_parts(b"cost: $").unwrap());
    assert_eq!(vec![variable(""), fixed(" 5")], read_parts(b"$ 5").unwrap());
    assert_eq!(vec![variable(""), variable("")], read_parts(b"$$").unwrap());
    assert_eq!(
        vec![variable(""), variable("a"), variable("")],
        read_parts(b"$$a$").unwrap()
    );
}

#[test]
fn text_may_hold_any_utf8() {
    assert_eq!(
        vec![fixed("größe: "), variable("body_bytes_sent"), fixed(" €")],
        read_parts("größe: $body_bytes_sent €".as_bytes()).unwrap()
    );
}

#[test]
fn a_character_from_beyond_ascii_ends_a_name() {
    assert_eq!(
        vec![variable("gr"), fixed("öße")],
        read_parts("$größe".as_bytes()).unwrap()
    );
}

#[test]
fn bytes_that_are_no_utf8_are_refused() {
    let bytes = [b'$', b'a', b' ', 0xff, b' ', b'$', b'b'];
    let expected = std::str::from_utf8(&bytes[2..5]).unwrap_err();
    match read_parts(&bytes) {
        Err(FormatParserError::StringConversionError { inner }) => assert_eq!(expected, inner),
        other => panic!("unexpected: {:?}", other),
    }
}

#[test]
fn the_first_piece_that_is_no_utf8_gives_the_error() {
    let bytes = [b'a', 0xc3, b'$', b'b', b' ', 0xff, 0xff];
    let expected = std::str::from_utf8(&bytes[0..2]).unwrap_err();
    match read_parts(&bytes) {
        Err(FormatParserError::StringConversionError { inner }) => {
            assert_eq!(expected, inner);
            assert_eq!(1, inner.valid_up_to());
        }
        other => panic!("unexpected: {:?}", other),
    }
}

#[test]
fn a_character_cut_by_the_end_is_refused() {
    let bytes = [b'$', b'a', b' ', 0xe2, 0x82];
    assert!(matches!(
        read_parts(&bytes),
        Err(FormatParserError::StringConversionError { .. })
    ));
}

#[test]
fn parts_written_one_after_the_other_give_the_format_back() {
    for format in [
        "",
        "$",
        "$$",
        "plain",
        "$a$b",
        "$remote_addr - $remote_user [$time_local] \"$request\" $status",
        "a$b c$ d$$e",
        "größe: $x €",
    ] {
        let mut written = String::new();
        for part in read_parts(format.as_bytes()).unwrap() {
            match part {
                Variable(name) => {
                    assert!(name.bytes().all(is_var_char));
                    written.push('$');
                    written.push_str(&name);
                }
                Fixed(text) => {
                    assert!(!text.is_empty());
                    assert!(!text.contains('$'));
                    written.push_str(&text);
                }
            }
        }
        assert_eq!(format, written);
    }
}

fn write(parts: &[FormatPart]) -> String {
    let mut written = String::new();
    for part in parts {
        match part {
            Variable(name) => {
                written.push('$');
                written.push_str(name);
            }
            Fixed(text) => written.push_str(text),
        }
    }
    written
}

#[test]
fn parts_that_can_be_read_are_read_back_from_what_they_write() {
    for parts in [
        vec![],
        vec![variable("a")],
        vec![fixed("plain text")],
        vec![variable(""), variable("")],
        vec![variable("a"), fixed("1")],
        vec![fixed("x"), variable("a"), fixed(" y"), variable("b")],
        vec![variable("status"), variable("body_bytes_sent"), fixed(" ö")],
    ] {
        assert_eq!(parts, read_parts(write(&parts).as_bytes()).unwrap());
    }
}

#[test]
fn text_after_text_is_read_as_one() {
    let parts = [fixed("a"), fixed("b")];
    assert_eq!(vec![fixed("ab")], read_parts(write(&parts).as_bytes()).unwrap());
}

#[test]
fn a_name_takes_the_letters_that_follow_it() {
    let parts = [variable("a"), fixed("b c")];
    assert_eq!(
        vec![variable("ab"), fixed(" c")],
        read_parts(write(&parts).as_bytes()).unwrap()
    );
}
