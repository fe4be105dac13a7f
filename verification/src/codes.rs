//! Escape directives and how they are rendered as text.
//!
//! The scanner (see [`crate::scan`]) reduces a template to a sequence of
//! [`Piece`]s: literal characters and escape directives. Rendering a piece
//! sequence under a [`Shell`] mode yields the final output text; the shell
//! mode only decides which zero-width markers wrap each escape sequence.

use vstd::prelude::*;

verus! {

/// Which shell's zero-width markers wrap each emitted escape sequence.
///
/// `Any` emits bare escape sequences; `Zsh` wraps each in `%{`/`%}`;
/// `Bash` wraps each in `\[`/`\]`.
#[derive(Copy, Clone)]
pub enum Shell {
    Any,
    Zsh,
    Bash,
}

/// A single "select graphic rendition" instruction: set the 256-color
/// foreground or background, or reset all styling.
#[derive(Copy, Clone)]
pub enum Escape {
    Foreground(u8),
    Background(u8),
    Reset,
}

/// One atom of output: a literal character (template text or a sentinel
/// glyph), or an escape directive still to be rendered for some shell.
#[derive(Copy, Clone)]
pub enum Piece {
    Ch(char),
    Code(Escape),
}

/// Zero-width sentinel glyph emitted right after the first foreground
/// write of an opening boundary.
pub const OPEN_SENTINEL: char = '\u{e0b6}';

/// Zero-width sentinel glyph emitted between the foreground writes of a
/// closing boundary.
pub const CLOSE_SENTINEL: char = '\u{e0b4}';

/// The character for one decimal digit value.
pub open spec fn digit_char(d: int) -> char {
    if d == 0 {
        '0'
    } else if d == 1 {
        '1'
    } else if d == 2 {
        '2'
    } else if d == 3 {
        '3'
    } else if d == 4 {
        '4'
    } else if d == 5 {
        '5'
    } else if d == 6 {
        '6'
    } else if d == 7 {
        '7'
    } else if d == 8 {
        '8'
    } else {
        '9'
    }
}

/// Decimal digit characters of `n`, most significant first, without
/// leading zeros (a single `'0'` for zero).
pub open spec fn dec_digits(n: nat) -> Seq<char>
    decreases n,
{
    if n < 10 {
        seq![digit_char(n as int)]
    } else {
        dec_digits(n / 10).push(digit_char((n % 10) as int))
    }
}

/// Marker opening an escape sequence under the given shell mode.
pub open spec fn shell_prefix(shell: Shell) -> Seq<char> {
    match shell {
        Shell::Any => Seq::empty(),
        Shell::Zsh => seq!['%', '{'],
        Shell::Bash => seq!['\\', '['],
    }
}

/// Marker closing an escape sequence under the given shell mode.
pub open spec fn shell_suffix(shell: Shell) -> Seq<char> {
    match shell {
        Shell::Any => Seq::empty(),
        Shell::Zsh => seq!['%', '}'],
        Shell::Bash => seq!['\\', ']'],
    }
}

/// The SGR parameter text of a directive: `38;5;<n>` for a foreground,
/// `48;5;<n>` for a background, `0` for a reset.
pub open spec fn escape_params(e: Escape) -> Seq<char> {
    match e {
        Escape::Foreground(c) => seq!['3', '8', ';', '5', ';'] + dec_digits(c as nat),
        Escape::Background(c) => seq!['4', '8', ';', '5', ';'] + dec_digits(c as nat),
        Escape::Reset => seq!['0'],
    }
}

/// The full text of one escape sequence under the given shell mode:
/// `ESC [ <params> m`, surrounded by the shell's zero-width markers.
pub open spec fn escape_code(e: Escape, shell: Shell) -> Seq<char> {
    shell_prefix(shell) + seq!['\u{1b}', '['] + escape_params(e) + seq!['m'] + shell_suffix(shell)
}

/// The text of one piece: a literal character stands for itself; an
/// escape directive is rendered as its (wrapped) escape sequence.
pub open spec fn render_piece(p: Piece, shell: Shell) -> Seq<char> {
    match p {
        Piece::Ch(c) => seq![c],
        Piece::Code(e) => escape_code(e, shell),
    }
}

/// The text of a whole piece sequence: each piece rendered in order.
pub open spec fn render(ps: Seq<Piece>, shell: Shell) -> Seq<char>
    decreases ps.len(),
{
    if ps.len() == 0 {
        Seq::empty()
    } else {
        render_piece(ps[0], shell) + render(ps.drop_first(), shell)
    }
}

/// Rendering distributes over concatenation of piece sequences.
pub broadcast proof fn lemma_render_concat(a: Seq<Piece>, b: Seq<Piece>, shell: Shell)
    ensures
        #[trigger] render(a + b, shell) == render(a, shell) + render(b, shell),
    decreases a.len(),
{
    if a.len() == 0 {
        assert(a + b =~= b);
        assert(render(a, shell) + render(b, shell) =~= render(b, shell));
    } else {
        lemma_render_concat(a.drop_first(), b, shell);
        assert((a + b).drop_first() =~= a.drop_first() + b);
        assert((a + b)[0] == a[0]);
        assert(render(a + b, shell) =~= render(a, shell) + render(b, shell));
    }
}

/// Rendering a single piece yields exactly that piece's text.
pub broadcast proof fn lemma_render_one(p: Piece, shell: Shell)
    ensures
        #[trigger] render(seq![p], shell) == render_piece(p, shell),
{
    assert(seq![p].drop_first() =~= Seq::<Piece>::empty());
    assert(render_piece(p, shell) + render(Seq::<Piece>::empty(), shell) =~= render_piece(
        p,
        shell,
    ));
}

/// The one-piece sequence of a literal character.
pub open spec fn char_pieces(c: char) -> Seq<Piece> {
    seq![Piece::Ch(c)]
}

/// A literal character renders as itself under every shell mode.
pub broadcast proof fn lemma_render_char(c: char, shell: Shell)
    ensures
        #[trigger] render(char_pieces(c), shell) == seq![c],
{
    lemma_render_one(Piece::Ch(c), shell);
    assert(render(char_pieces(c), shell) =~= seq![c]);
}

/// Relies on `String::push`: appends the given character to the end of
/// the string.
#[verifier::external_body]
pub(crate) fn push_char(buffer: &mut String, c: char)
    ensures
        final(buffer)@ == old(buffer)@.push(c),
{
    buffer.push(c);
}

fn push_digit(buffer: &mut String, d: u8)
    requires
        d < 10,
    ensures
        final(buffer)@ == old(buffer)@.push(digit_char(d as int)),
{
    let c: char = match d {
        0 => '0',
        1 => '1',
        2 => '2',
        3 => '3',
        4 => '4',
        5 => '5',
        6 => '6',
        7 => '7',
        8 => '8',
        _ => '9',
    };
    push_char(buffer, c);
}

/// Appends the decimal digits of `n` to the buffer.
pub(crate) fn push_dec(buffer: &mut String, n: u8)
    ensures
        final(buffer)@ == old(buffer)@ + dec_digits(n as nat),
{
    if n >= 10 {
        let q: u8 = n / 10;
        if q >= 10 {
            push_digit(buffer, q / 10);
            push_digit(buffer, q % 10);
            assert(q / 10 < 10);
            assert(dec_digits((q / 10) as nat) =~= seq![digit_char((q / 10) as int)]);
            assert(dec_digits(q as nat) =~= seq![digit_char((q / 10) as int)].push(
                digit_char((q % 10) as int),
            ));
            assert(dec_digits(q as nat) =~= seq![
                digit_char((q / 10) as int),
                digit_char((q % 10) as int),
            ]);
        } else {
            push_digit(buffer, q);
        }
        push_digit(buffer, n % 10);
        assert(dec_digits(n as nat) =~= dec_digits(q as nat).push(digit_char((n % 10) as int)));
        assert(final(buffer)@ =~= old(buffer)@ + dec_digits(n as nat));
    } else {
        push_digit(buffer, n);
    }
}

/// Appends the full escape sequence text of `escape` under `shell`.
pub fn push_escape_code(buffer: &mut String, escape: Escape, shell: Shell)
    ensures
        final(buffer)@ == old(buffer)@ + escape_code(escape, shell),
{
    match shell {
        Shell::Zsh => {
            push_char(buffer, '%');
            push_char(buffer, '{');
        },
        Shell::Bash => {
            push_char(buffer, '\\');
            push_char(buffer, '[');
        },
        Shell::Any => {},
    }
    push_char(buffer, '\u{1b}');
    push_char(buffer, '[');
    match escape {
        Escape::Foreground(c) => {
            push_char(buffer, '3');
            push_char(buffer, '8');
            push_char(buffer, ';');
            push_char(buffer, '5');
            push_char(buffer, ';');
            push_dec(buffer, c);
        },
        Escape::Background(c) => {
            push_char(buffer, '4');
            push_char(buffer, '8');
            push_char(buffer, ';');
            push_char(buffer, '5');
            push_char(buffer, ';');
            push_dec(buffer, c);
        },
        Escape::Reset => {
            push_char(buffer, '0');
        },
    }
    push_char(buffer, 'm');
    match shell {
        Shell::Zsh => {
            push_char(buffer, '%');
            push_char(buffer, '}');
        },
        Shell::Bash => {
            push_char(buffer, '\\');
            push_char(buffer, ']');
        },
        Shell::Any => {},
    }
    assert(final(buffer)@ =~= old(buffer)@ + escape_code(escape, shell));
}

} // verus!
