use ansibrace::{generate, Shell};

#[test]
fn one_section() {
    assert_eq!(
        generate("{0,1:xxx}", Shell::Any),
        Ok("\x1b[38;5;1m\u{e0b6}\x1b[38;5;0m\x1b[48;5;1mxxx\x1b[0m\x1b[38;5;1m\u{e0b4}\x1b[0m"
            .to_string())
    );
}

#[test]
fn one_section_zsh() {
    assert_eq!(
        generate("{0,1:xxx}", Shell::Zsh),
        Ok("%{\x1b[38;5;1m%}\u{e0b6}%{\x1b[38;5;0m%}%{\x1b[48;5;1m%}xxx%{\x1b[0m%}%{\x1b[38;5;1m%}\u{e0b4}%{\x1b[0m%}"
            .to_string())
    );
}

#[test]
fn one_section_bash() {
    assert_eq!(
        generate("{0,1:xxx}", Shell::Bash),
        Ok("\\[\x1b[38;5;1m\\]\u{e0b6}\\[\x1b[38;5;0m\\]\\[\x1b[48;5;1m\\]xxx\\[\x1b[0m\\]\\[\x1b[38;5;1m\\]\u{e0b4}\\[\x1b[0m\\]"
            .to_string())
    );
}

#[test]
fn sequential_sections() {
    assert_eq!(
        generate("{0,1:xxx} {100,200:yyy}", Shell::Any),
        Ok("\x1b[38;5;1m\u{e0b6}\x1b[38;5;0m\x1b[48;5;1mxxx\x1b[0m\x1b[38;5;1m\u{e0b4}\x1b[0m \x1b[38;5;200m\u{e0b6}\x1b[38;5;100m\x1b[48;5;200myyy\x1b[0m\x1b[38;5;200m\u{e0b4}\x1b[0m"
            .to_string())
    );
}

#[test]
fn overlap_left() {
    assert_eq!(
        generate("{0,1:xxx {100,200:yyy}}", Shell::Any),
        Ok("\x1b[38;5;1m\u{e0b6}\x1b[38;5;0m\x1b[48;5;1mxxx \x1b[38;5;200m\u{e0b6}\x1b[38;5;100m\x1b[48;5;200myyy\x1b[0m\x1b[38;5;200m\u{e0b4}\x1b[0m"
            .to_string())
    );
}

#[test]
fn overlap_right() {
    assert_eq!(
        generate("{0,1:{100,200:yyy} xxx}", Shell::Any),
        Ok("\x1b[38;5;200m\u{e0b6}\x1b[38;5;100m\x1b[48;5;200myyy\x1b[48;5;1m\x1b[38;5;200m\u{e0b4}\x1b[38;5;0m xxx\x1b[0m\x1b[38;5;1m\u{e0b4}\x1b[0m"
            .to_string())
    );
}

#[test]
fn bad_fg() {
    assert_eq!(
        generate("{999,1:xxx}", Shell::Any),
        Err("Invalid fg: number too large to fit in target type".to_string())
    );
}

#[test]
fn bad_bg() {
    assert_eq!(
        generate("{1,-9:xxx}", Shell::Any),
        Err("Invalid bg: invalid digit found in string".to_string())
    );
}

#[test]
fn incomplete_meta() {
    assert_eq!(
        generate("{1:xxx}", Shell::Any),
        Err("Both fg and bg should be specified".to_string())
    );
}
