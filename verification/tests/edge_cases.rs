use ansibrace::{generate, Shell};

#[test]
fn empty_template() {
    assert_eq!(generate("", Shell::Any), Ok("".to_string()));
}

#[test]
fn plain_text_only() {
    assert_eq!(generate("plain text", Shell::Any), Ok("plain text".to_string()));
    assert_eq!(generate("plain text", Shell::Zsh), Ok("plain text".to_string()));
}

#[test]
fn full_color_range_accepted() {
    assert_eq!(
        generate("{255,0:hi}", Shell::Any),
        Ok("\x1b[38;5;0m\u{e0b6}\x1b[38;5;255m\x1b[48;5;0mhi\x1b[0m\x1b[38;5;0m\u{e0b4}\x1b[0m"
            .to_string())
    );
}

#[test]
fn fg_256_too_large() {
    assert_eq!(
        generate("{256,1:x}", Shell::Any),
        Err("Invalid fg: number too large to fit in target type".to_string())
    );
}

#[test]
fn bg_256_too_large() {
    assert_eq!(
        generate("{1,256:x}", Shell::Any),
        Err("Invalid bg: number too large to fit in target type".to_string())
    );
}

#[test]
fn fg_empty_field() {
    assert_eq!(
        generate("{,1:x}", Shell::Any),
        Err("Invalid fg: cannot parse integer from empty string".to_string())
    );
}

#[test]
fn bg_empty_field() {
    assert_eq!(
        generate("{1,:x}", Shell::Any),
        Err("Invalid bg: cannot parse integer from empty string".to_string())
    );
}

#[test]
fn fg_non_numeric() {
    assert_eq!(
        generate("{a,1:x}", Shell::Any),
        Err("Invalid fg: invalid digit found in string".to_string())
    );
}

#[test]
fn plus_sign_accepted() {
    assert_eq!(
        generate("{+5,2:y}", Shell::Any),
        Ok("\x1b[38;5;2m\u{e0b6}\x1b[38;5;5m\x1b[48;5;2my\x1b[0m\x1b[38;5;2m\u{e0b4}\x1b[0m"
            .to_string())
    );
}

#[test]
fn three_fields_rejected() {
    assert_eq!(
        generate("{1,2,3:x}", Shell::Any),
        Err("Both fg and bg should be specified".to_string())
    );
}

#[test]
fn empty_meta_rejected() {
    assert_eq!(
        generate("{:x}", Shell::Any),
        Err("Both fg and bg should be specified".to_string())
    );
}

#[test]
fn meta_error_wins_over_valid_values() {
    // Three valid numbers still fail on the field count.
    assert_eq!(
        generate("{0,255,7:x}", Shell::Zsh),
        Err("Both fg and bg should be specified".to_string())
    );
}

#[test]
fn unmatched_close_brace_tolerated() {
    assert_eq!(generate("a}b", Shell::Any), Ok("a\x1b[0m\x1b[0mb".to_string()));
}

#[test]
fn unterminated_section_no_final_flush() {
    assert_eq!(
        generate("{1,2:xx", Shell::Any),
        Ok("\x1b[38;5;2m\u{e0b6}\x1b[38;5;1m\x1b[48;5;2mxx".to_string())
    );
}

#[test]
fn template_ends_after_meta() {
    assert_eq!(
        generate("{1,2:", Shell::Any),
        Ok("\x1b[38;5;2m\u{e0b6}\x1b[38;5;1m\x1b[48;5;2m".to_string())
    );
}

#[test]
fn missing_colon_still_splits_meta() {
    assert_eq!(
        generate("{3,4", Shell::Any),
        Ok("\x1b[38;5;4m\u{e0b6}\x1b[38;5;3m\x1b[48;5;4m".to_string())
    );
}

#[test]
fn missing_colon_single_field() {
    assert_eq!(
        generate("{9", Shell::Any),
        Err("Both fg and bg should be specified".to_string())
    );
}

#[test]
fn nested_with_text_between() {
    assert_eq!(
        generate("{0,1:a{2,3:b}c}", Shell::Any),
        Ok("\x1b[38;5;1m\u{e0b6}\x1b[38;5;0m\x1b[48;5;1ma\x1b[38;5;3m\u{e0b6}\x1b[38;5;2m\x1b[48;5;3mb\x1b[48;5;1m\x1b[38;5;3m\u{e0b4}\x1b[38;5;0mc\x1b[0m\x1b[38;5;1m\u{e0b4}\x1b[0m"
            .to_string())
    );
}

#[test]
fn zsh_wraps_each_escape_only() {
    assert_eq!(
        generate("a{0,1:b}c", Shell::Zsh),
        Ok("a%{\x1b[38;5;1m%}\u{e0b6}%{\x1b[38;5;0m%}%{\x1b[48;5;1m%}b%{\x1b[0m%}%{\x1b[38;5;1m%}\u{e0b4}%{\x1b[0m%}c"
            .to_string())
    );
}

#[test]
fn errors_do_not_depend_on_shell() {
    assert_eq!(
        generate("{1:x}", Shell::Bash),
        Err("Both fg and bg should be specified".to_string())
    );
    assert_eq!(
        generate("{999,1:x}", Shell::Zsh),
        Err("Invalid fg: number too large to fit in target type".to_string())
    );
}

#[test]
fn lone_plus_is_invalid_digit() {
    assert_eq!(
        generate("{+,1:x}", Shell::Any),
        Err("Invalid fg: invalid digit found in string".to_string())
    );
}
