use go::ui::parse_move_position;

#[test]
fn parse_move_works_uppper_case() {
    let res = parse_move_position("A1").unwrap();
    assert_eq!((0, 0), res);
}

#[test]
fn parse_move_works_lower_case() {
    let res = parse_move_position("a1").unwrap();
    assert_eq!((0, 0), res);
}

#[test]
fn parse_move_solo_alpha_should_error() {
    parse_move_position("a").unwrap_err();
}

#[test]
fn parse_move_solo_digit_should_error() {
    parse_move_position("1").unwrap_err();
}

#[test]
fn parse_move_empty_should_error() {
    parse_move_position("").unwrap_err();
}

#[test]
fn parse_move_all_digits_should_error() {
    parse_move_position("11").unwrap_err();
}

#[test]
fn parse_move_all_alpha_should_error() {
    parse_move_position("aa").unwrap_err();
}

#[test]
fn parse_move_extra_char_should_error() {
    parse_move_position("a1b").unwrap_err();
}

#[test]
fn ui_parse_move_works_uppper_case() {
    let input = String::from("A1");
    let res = parse_move_position(&input).unwrap();
    assert_eq!((0, 0), res);
}

#[test]
fn ui_parse_move_works_lower_case() {
    let input = String::from("a1");
    let res = parse_move_position(&input).unwrap();
    assert_eq!((0, 0), res);
}

#[test]
fn ui_parse_move_solo_alpha_should_error() {
    let input = String::from("a");
    parse_move_position(&input).unwrap_err();
}

#[test]
fn ui_parse_move_solo_digit_should_error() {
    let input = String::from("1");
    parse_move_position(&input).unwrap_err();
}

#[test]
fn ui_parse_move_empty_should_error() {
    let input = String::from("");
    parse_move_position(&input).unwrap_err();
}

#[test]
fn ui_parse_move_all_digits_should_error() {
    let input = String::from("11");
    parse_move_position(&input).unwrap_err();
}

#[test]
fn ui_parse_move_all_alpha_should_error() {
    let input = String::from("aa");
    parse_move_position(&input).unwrap_err();
}

#[test]
fn ui_parse_move_extra_char_should_error() {
    let input = String::from("a1b");
    parse_move_position(&input).unwrap_err();
}

#[test]
fn parse_move_trims_surrounding_whitespace() {
    let res = parse_move_position(" b3\n").unwrap();
    assert_eq!((1, 2), res);
}

#[test]
fn parse_move_column_zero_should_error() {
    // columns are numbered from 1
    parse_move_position("a0").unwrap_err();
}

#[test]
fn parse_move_larger_coordinates() {
    let res = parse_move_position("I9").unwrap();
    assert_eq!((8, 8), res);
}
