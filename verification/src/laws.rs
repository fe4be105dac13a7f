//! Laws of the template generator, stated and proved over its
//! specification functions.
//!
//! Each public proof function here states one property of the library
//! in terms of the open specifications of [`crate::meta`],
//! [`crate::scan`] and [`crate::codes`].

use vstd::prelude::*;

use crate::codes::{
    char_pieces, dec_digits, digit_char, escape_code, lemma_render_char, lemma_render_concat,
    lemma_render_one, render, render_piece, Escape, Piece, Shell, CLOSE_SENTINEL, OPEN_SENTINEL,
};
use crate::meta::{
    comma_count, digit_value, is_digit, lemma_scan_len_at, parse_digits, parse_meta, parse_u8,
    MetaError, NumError, Section,
};
use crate::scan::{
    active_after, close_pieces, flush_now, flushed_pieces, gen_spec, open_pieces, pop_stack,
    scan_from, scan_spec, top_section, Brace,
};

verus! {

broadcast use lemma_render_concat, lemma_render_one, lemma_render_char;

/// Whether `s` holds neither brace character.
pub open spec fn no_braces(s: Seq<char>) -> bool {
    forall|k: int| 0 <= k < s.len() ==> s[k] != '{' && s[k] != '}'
}

/// Whether every character of `s` is a decimal digit.
pub open spec fn all_digits(s: Seq<char>) -> bool {
    forall|k: int| 0 <= k < s.len() ==> is_digit(s[k])
}

/// The numeric value of a digit string, most significant digit first.
pub open spec fn digits_value(s: Seq<char>) -> int
    decreases s.len(),
{
    if s.len() == 0 {
        0
    } else {
        digits_value(s.drop_last()) * 10 + digit_value(s.last())
    }
}

proof fn lemma_parse_digits_push(s: Seq<char>, c: char, acc: u8)
    ensures
        parse_digits(s.push(c), acc) == (match parse_digits(s, acc) {
            Ok(v) => if !is_digit(c) {
                Err::<u8, NumError>(NumError::InvalidDigit)
            } else if v * 10 + digit_value(c) > 255 {
                Err::<u8, NumError>(NumError::TooLarge)
            } else {
                Ok::<u8, NumError>((v * 10 + digit_value(c)) as u8)
            },
            Err(e) => Err::<u8, NumError>(e),
        }),
    decreases s.len(),
{
    if s.len() == 0 {
        assert(s.push(c)[0] == c);
        assert(s.push(c).drop_first() =~= Seq::<char>::empty());
        assert(parse_digits(s, acc) == Ok::<u8, NumError>(acc));
        if is_digit(c) && acc * 10 + digit_value(c) <= 255 {
            let acc2 = (acc * 10 + digit_value(c)) as u8;
            assert(parse_digits(Seq::<char>::empty(), acc2) == Ok::<u8, NumError>(acc2));
        }
    } else {
        assert(s.push(c)[0] == s[0]);
        assert(s.push(c).drop_first() =~= s.drop_first().push(c));
        if is_digit(s[0]) && acc * 10 + digit_value(s[0]) <= 255 {
            lemma_parse_digits_push(s.drop_first(), c, (acc * 10 + digit_value(s[0])) as u8);
        }
    }
}

proof fn lemma_digit_string_value(s: Seq<char>)
    requires
        s.len() > 0,
        all_digits(s),
    ensures
        digits_value(s) >= 0,
        digits_value(s) <= 255 ==> parse_digits(s, 0) == Ok::<u8, NumError>(
            digits_value(s) as u8,
        ),
        digits_value(s) > 255 ==> parse_digits(s, 0) == Err::<u8, NumError>(NumError::TooLarge),
    decreases s.len(),
{
    let prefix = s.drop_last();
    let c = s.last();
    assert(is_digit(c));
    assert(s =~= prefix.push(c));
    lemma_parse_digits_push(prefix, c, 0);
    if prefix.len() == 0 {
        assert(parse_digits(prefix, 0) == Ok::<u8, NumError>(0));
        assert(digits_value(prefix) == 0);
    } else {
        assert(all_digits(prefix));
        lemma_digit_string_value(prefix);
    }
}

/// Color fields accept the whole 8-bit range and nothing more: a
/// nonempty digit string parses to its value when that value is at most
/// 255 and fails as too large otherwise, and a field that starts with
/// anything but a digit or a plus sign — a minus sign, a letter — fails
/// as an invalid digit. The two failures are distinct error values.
pub proof fn lemma_color_value_range(s: Seq<char>)
    ensures
        s.len() > 0 && all_digits(s) && digits_value(s) <= 255 ==> parse_u8(s) == Ok::<
            u8,
            NumError,
        >(digits_value(s) as u8),
        s.len() > 0 && all_digits(s) && digits_value(s) > 255 ==> parse_u8(s) == Err::<
            u8,
            NumError,
        >(NumError::TooLarge),
        s.len() > 0 && !is_digit(s[0]) && s[0] != '+' ==> parse_u8(s) == Err::<u8, NumError>(
            NumError::InvalidDigit,
        ),
{
    if s.len() > 0 && all_digits(s) {
        assert(is_digit(s[0]));
        assert(s[0] != '+');
        lemma_digit_string_value(s);
    }
}

/// Metadata splits into exactly two comma-separated fields or is
/// rejected as malformed, whatever the fields hold: the malformed error
/// comes exactly when the comma count differs from one.
pub proof fn lemma_metadata_field_count(m: Seq<char>)
    ensures
        comma_count(m) != 1 ==> parse_meta(m) == Err::<Section, MetaError>(
            MetaError::MalformedMetadata,
        ),
        parse_meta(m) == Err::<Section, MetaError>(MetaError::MalformedMetadata) ==> comma_count(
            m,
        ) != 1,
{
}

proof fn lemma_dec_digits_facts(n: nat)
    ensures
        dec_digits(n).len() >= 1,
        all_digits(dec_digits(n)),
        digits_value(dec_digits(n)) == n,
    decreases n,
{
    if n < 10 {
        assert(digit_value(digit_char(n as int)) == n);
        assert(is_digit(digit_char(n as int)));
        let d = dec_digits(n);
        assert(d =~= seq![digit_char(n as int)]);
        assert(d.drop_last() =~= Seq::<char>::empty());
        assert(d.last() == digit_char(n as int));
        assert(digits_value(Seq::<char>::empty()) == 0);
        assert(digits_value(d) == digits_value(d.drop_last()) * 10 + digit_value(d.last()));
    } else {
        lemma_dec_digits_facts(n / 10);
        let s = dec_digits(n / 10);
        let c = digit_char((n % 10) as int);
        assert(digit_value(c) == n % 10);
        assert(is_digit(c));
        let d = dec_digits(n);
        assert(d == s.push(c));
        assert(d.drop_last() =~= s);
        assert(d.last() == c);
        assert(forall|k: int| 0 <= k < s.len() ==> d[k] == s[k]);
        assert(digits_value(d) == digits_value(s) * 10 + digit_value(c));
        assert(digits_value(d) == (n / 10) * 10 + n % 10);
    }
}

proof fn lemma_dec_digits_parse(v: u8)
    ensures
        parse_u8(dec_digits(v as nat)) == Ok::<u8, NumError>(v),
{
    lemma_dec_digits_facts(v as nat);
    lemma_color_value_range(dec_digits(v as nat));
}

proof fn lemma_comma_count_concat(a: Seq<char>, b: Seq<char>)
    ensures
        comma_count(a + b) == comma_count(a) + comma_count(b),
    decreases a.len(),
{
    if a.len() == 0 {
        assert(a + b =~= b);
    } else {
        assert((a + b)[0] == a[0]);
        assert((a + b).drop_first() =~= a.drop_first() + b);
        lemma_comma_count_concat(a.drop_first(), b);
    }
}

proof fn lemma_comma_count_zero(s: Seq<char>)
    requires
        forall|k: int| 0 <= k < s.len() ==> s[k] != ',',
    ensures
        comma_count(s) == 0,
    decreases s.len(),
{
    if s.len() > 0 {
        lemma_comma_count_zero(s.drop_first());
    }
}

/// The canonical metadata text `fg,bg` with both colors in decimal.
pub open spec fn color_pair(fg: u8, bg: u8) -> Seq<char> {
    dec_digits(fg as nat) + seq![','] + dec_digits(bg as nat)
}

/// The canonical section prefix `{fg,bg:`.
pub open spec fn section_header(fg: u8, bg: u8) -> Seq<char> {
    seq!['{'] + color_pair(fg, bg) + seq![':']
}

/// The canonical complete section `{fg,bg:text}`.
pub open spec fn section_template(fg: u8, bg: u8, text: Seq<char>) -> Seq<char> {
    section_header(fg, bg) + text + seq!['}']
}

proof fn lemma_parse_color_pair(fg: u8, bg: u8)
    ensures
        parse_meta(color_pair(fg, bg)) == Ok::<Section, MetaError>(Section { fg, bg }),
{
    let df = dec_digits(fg as nat);
    let db = dec_digits(bg as nat);
    let m = color_pair(fg, bg);
    lemma_dec_digits_facts(fg as nat);
    lemma_dec_digits_facts(bg as nat);
    assert(forall|k: int| 0 <= k < df.len() ==> df[k] != ',') by {
        assert(forall|k: int| 0 <= k < df.len() ==> is_digit(df[k]) && df[k] != ',');
    }
    assert(forall|k: int| 0 <= k < db.len() ==> db[k] != ',') by {
        assert(forall|k: int| 0 <= k < db.len() ==> is_digit(db[k]) && db[k] != ',');
    }
    lemma_comma_count_zero(df);
    lemma_comma_count_zero(db);
    lemma_comma_count_concat(df, seq![','] + db);
    lemma_comma_count_concat(seq![','], db);
    assert(df + seq![','] + db =~= df + (seq![','] + db));
    assert(comma_count(seq![','] + db) == 1 + comma_count(db)) by {
        assert((seq![','] + db)[0] == ',');
        assert((seq![','] + db).drop_first() =~= db);
    }
    assert(comma_count(m) == 1);
    assert(forall|k: int| 0 <= k < df.len() ==> m[k] == df[k] && m[k] != ',');
    assert(m[df.len() as int] == ',');
    lemma_scan_len_at(m, ',', df.len() as int);
    assert(m.take(df.len() as int) =~= df);
    assert(m.skip(df.len() as int + 1) =~= db);
    lemma_dec_digits_parse(fg);
    lemma_dec_digits_parse(bg);
}


/// The pieces of a literal text run: each character as itself.
pub open spec fn text_pieces(t: Seq<char>) -> Seq<Piece>
    decreases t.len(),
{
    if t.len() == 0 {
        Seq::empty()
    } else {
        char_pieces(t[0]) + text_pieces(t.drop_first())
    }
}

/// A literal text run renders as itself under every shell mode.
pub proof fn lemma_render_text(u: Seq<char>, shell: Shell)
    ensures
        render(text_pieces(u), shell) == u,
    decreases u.len(),
{
    if u.len() == 0 {
        assert(text_pieces(u) == Seq::<Piece>::empty());
        assert(render(Seq::<Piece>::empty(), shell) == Seq::<char>::empty());
        assert(render(text_pieces(u), shell) =~= u);
    } else {
        lemma_render_text(u.drop_first(), shell);
        assert(text_pieces(u) == char_pieces(u[0]) + text_pieces(u.drop_first()));
        assert(render(text_pieces(u), shell) == render(char_pieces(u[0]), shell) + render(
            text_pieces(u.drop_first()),
            shell,
        ));
        assert(render(text_pieces(u), shell) =~= u);
    }
}

/// Scanning a run of non-brace characters flushes any pending boundary
/// before the first of them, copies the run through untouched, and goes
/// on with no brace pending.
pub proof fn lemma_scan_text_run(
    u: Seq<char>,
    tail: Seq<char>,
    stack: Seq<Section>,
    active: Option<Section>,
    pending: Option<Brace>,
)
    requires
        u.len() > 0,
        no_braces(u),
    ensures
        scan_from(u + tail, stack, active, pending) == (match scan_from(
            tail,
            stack,
            active_after(u[0], stack, active, pending),
            None,
        ) {
            Ok(t) => Ok::<Seq<Piece>, MetaError>(
                flushed_pieces(u[0], stack, active, pending) + text_pieces(u) + t,
            ),
            Err(e) => Err::<Seq<Piece>, MetaError>(e),
        }),
    decreases u.len(),
{
    let s = u + tail;
    assert(s[0] == u[0]);
    assert(u[0] != '{' && u[0] != '}');
    assert(s.drop_first() =~= u.drop_first() + tail);
    let emitted = flushed_pieces(u[0], stack, active, pending);
    let act1 = active_after(u[0], stack, active, pending);
    if u.len() == 1 {
        assert(u.drop_first() + tail =~= tail);
        assert(text_pieces(u.drop_first()) =~= Seq::<Piece>::empty());
        assert(text_pieces(u) == char_pieces(u[0]) + text_pieces(u.drop_first()));
        assert(text_pieces(u) =~= char_pieces(u[0]));
        let tail1 = scan_from(tail, stack, act1, None);
        if tail1 is Ok {
            assert(emitted + char_pieces(u[0]) + tail1->Ok_0 =~= emitted + text_pieces(u)
                + tail1->Ok_0);
        }
    } else {
        assert(no_braces(u.drop_first())) by {
            assert(forall|k: int|
                0 <= k < u.drop_first().len() ==> u.drop_first()[k] == u[k + 1]);
        }
        lemma_scan_text_run(u.drop_first(), tail, stack, act1, None);
        assert(u.drop_first()[0] == u[1]);
        assert(flush_now(u[1], None) == false);
        assert(flushed_pieces(u[1], stack, act1, None) =~= Seq::<Piece>::empty());
        assert(active_after(u[1], stack, act1, None) == act1);
        assert(text_pieces(u) == char_pieces(u[0]) + text_pieces(u.drop_first()));
        let tail1 = scan_from(tail, stack, act1, None);
        if tail1 is Ok {
            assert(emitted + char_pieces(u[0]) + (Seq::<Piece>::empty() + text_pieces(
                u.drop_first(),
            ) + tail1->Ok_0) =~= emitted + text_pieces(u) + tail1->Ok_0);
        }
    }
}

/// Scanning a canonical section prefix `{fg,bg:` flushes any pending
/// boundary, pushes the section, and leaves an opening brace pending.
pub proof fn lemma_open_header(
    fg: u8,
    bg: u8,
    tail: Seq<char>,
    stack: Seq<Section>,
    active: Option<Section>,
    pending: Option<Brace>,
)
    ensures
        scan_from(section_header(fg, bg) + tail, stack, active, pending) == (match scan_from(
            tail,
            stack.push(Section { fg, bg }),
            active_after('{', stack, active, pending),
            Some(Brace::Open),
        ) {
            Ok(t) => Ok::<Seq<Piece>, MetaError>(
                flushed_pieces('{', stack, active, pending) + t,
            ),
            Err(e) => Err::<Seq<Piece>, MetaError>(e),
        }),
{
    let df = dec_digits(fg as nat);
    let db = dec_digits(bg as nat);
    let m = color_pair(fg, bg);
    let s = section_header(fg, bg) + tail;
    lemma_dec_digits_facts(fg as nat);
    lemma_dec_digits_facts(bg as nat);
    assert(s[0] == '{');
    let rest = s.drop_first();
    assert(rest =~= m + seq![':'] + tail);
    assert(forall|k: int| 0 <= k < m.len() ==> rest[k] == m[k]);
    assert(forall|k: int| 0 <= k < m.len() ==> m[k] != ':') by {
        assert(forall|k: int| 0 <= k < df.len() ==> m[k] == df[k] && is_digit(m[k]));
        assert(m[df.len() as int] == ',');
        assert(forall|k: int|
            df.len() + 1 <= k < m.len() ==> m[k] == db[k - df.len() - 1] && is_digit(m[k]));
    }
    assert(rest[m.len() as int] == ':');
    lemma_scan_len_at(rest, ':', m.len() as int);
    assert(m.len() < rest.len());
    assert(rest.take(m.len() as int) =~= m);
    assert(rest.skip(m.len() as int + 1) =~= tail);
    lemma_parse_color_pair(fg, bg);
}

/// Scanning a canonical complete section `{fg,bg:text}` emits any
/// pending boundary, then the section's opening pieces and its text,
/// and leaves its closing brace pending with the section as the
/// rendering context.
pub proof fn lemma_full_section(
    fg: u8,
    bg: u8,
    text: Seq<char>,
    tail: Seq<char>,
    stack: Seq<Section>,
    active: Option<Section>,
    pending: Option<Brace>,
)
    requires
        no_braces(text),
    ensures
        scan_from(section_template(fg, bg, text) + tail, stack, active, pending) == (
        match scan_from(tail, pop_stack(stack.push(Section { fg, bg })), Some(Section { fg, bg }), Some(
            Brace::Close,
        )) {
            Ok(t) => Ok::<Seq<Piece>, MetaError>(
                flushed_pieces('{', stack, active, pending) + (open_pieces(
                    Some(Section { fg, bg }),
                ) + text_pieces(text)) + t,
            ),
            Err(e) => Err::<Seq<Piece>, MetaError>(e),
        }),
{
    let sec = Section { fg, bg };
    let s = section_template(fg, bg, text) + tail;
    assert(s =~= section_header(fg, bg) + (text + seq!['}'] + tail));
    lemma_open_header(fg, bg, text + seq!['}'] + tail, stack, active, pending);
    let emitted0 = flushed_pieces('{', stack, active, pending);
    let act1 = active_after('{', stack, active, pending);
    let st1 = stack.push(sec);
    assert(top_section(st1) == Some(sec));
    if text.len() > 0 {
        assert(text + seq!['}'] + tail =~= text + (seq!['}'] + tail));
        lemma_scan_text_run(text, seq!['}'] + tail, st1, act1, Some(Brace::Open));
        assert(flush_now(text[0], Some(Brace::Open)));
        assert(flushed_pieces(text[0], st1, act1, Some(Brace::Open)) == open_pieces(Some(sec)));
        assert(active_after(text[0], st1, act1, Some(Brace::Open)) == Some(sec));
        // the closing brace: no boundary is flushed, the stack pops
        let s2 = seq!['}'] + tail;
        assert(s2[0] == '}');
        assert(s2.drop_first() =~= tail);
        assert(flush_now('}', None) == false);
        let tail1 = scan_from(tail, pop_stack(st1), Some(sec), Some(Brace::Close));
        if tail1 is Ok {
            assert(scan_from(s2, st1, Some(sec), None) == Ok::<Seq<Piece>, MetaError>(
                Seq::<Piece>::empty() + tail1->Ok_0,
            ));
            assert(emitted0 + (open_pieces(Some(sec)) + text_pieces(text) + (Seq::<
                Piece,
            >::empty() + tail1->Ok_0)) =~= emitted0 + (open_pieces(Some(sec)) + text_pieces(
                text,
            )) + tail1->Ok_0);
        }
    } else {
        let s2 = text + seq!['}'] + tail;
        assert(s2 =~= seq!['}'] + tail);
        assert(s2[0] == '}');
        assert(s2.drop_first() =~= tail);
        assert(flush_now('}', Some(Brace::Open)));
        assert(flushed_pieces('}', st1, act1, Some(Brace::Open)) == open_pieces(Some(sec)));
        assert(active_after('}', st1, act1, Some(Brace::Open)) == Some(sec));
        let tail1 = scan_from(tail, pop_stack(st1), Some(sec), Some(Brace::Close));
        if tail1 is Ok {
            assert(text_pieces(text) =~= Seq::<Piece>::empty());
            assert(emitted0 + (open_pieces(Some(sec)) + tail1->Ok_0) =~= emitted0 + (open_pieces(
                Some(sec),
            ) + text_pieces(text)) + tail1->Ok_0);
        }
    }
}


/// The pieces one complete section emits: its open boundary, its text,
/// and its close boundary back to no section at all.
pub open spec fn section_block(fg: u8, bg: u8, text: Seq<char>) -> Seq<Piece> {
    open_pieces(Some(Section { fg, bg })) + text_pieces(text) + close_pieces(
        Some(Section { fg, bg }),
        None,
    )
}

/// The opening boundary renders as: foreground-of-background, the open
/// sentinel, foreground, background.
pub proof fn lemma_render_open_pieces(sec: Section, shell: Shell)
    ensures
        render(open_pieces(Some(sec)), shell) == escape_code(Escape::Foreground(sec.bg), shell)
            + seq![OPEN_SENTINEL] + escape_code(Escape::Foreground(sec.fg), shell) + escape_code(
            Escape::Background(sec.bg),
            shell,
        ),
{
    let ps = open_pieces(Some(sec));
    assert(ps =~= seq![ps[0]] + seq![ps[1]] + seq![ps[2]] + seq![ps[3]]);
    lemma_render_one(ps[0], shell);
    lemma_render_one(ps[1], shell);
    lemma_render_one(ps[2], shell);
    lemma_render_one(ps[3], shell);
    assert(render(ps, shell) =~= escape_code(Escape::Foreground(sec.bg), shell)
        + seq![OPEN_SENTINEL] + escape_code(Escape::Foreground(sec.fg), shell) + escape_code(
        Escape::Background(sec.bg),
        shell,
    ));
}

/// The closing boundary renders as: background of what remains (or
/// reset), then — when a section closes — its background as a
/// foreground and the close sentinel, then the remaining foreground (or
/// reset).
pub proof fn lemma_render_close_pieces(current: Option<Section>, next: Option<Section>, shell: Shell)
    ensures
        render(close_pieces(current, next), shell) == (match next {
            Some(s) => escape_code(Escape::Background(s.bg), shell),
            None => escape_code(Escape::Reset, shell),
        }) + (match current {
            Some(c) => escape_code(Escape::Foreground(c.bg), shell) + seq![CLOSE_SENTINEL],
            None => Seq::empty(),
        }) + (match next {
            Some(s) => escape_code(Escape::Foreground(s.fg), shell),
            None => escape_code(Escape::Reset, shell),
        }),
{
    let ps = close_pieces(current, next);
    if current is Some {
        assert(ps =~= seq![ps[0]] + seq![ps[1]] + seq![ps[2]] + seq![ps[3]]);
        lemma_render_one(ps[0], shell);
        lemma_render_one(ps[1], shell);
        lemma_render_one(ps[2], shell);
        lemma_render_one(ps[3], shell);
    } else {
        assert(ps =~= seq![ps[0]] + seq![ps[1]]);
        lemma_render_one(ps[0], shell);
        lemma_render_one(ps[1], shell);
    }
    assert(render(ps, shell) =~= (match next {
        Some(s) => escape_code(Escape::Background(s.bg), shell),
        None => escape_code(Escape::Reset, shell),
    }) + (match current {
        Some(c) => escape_code(Escape::Foreground(c.bg), shell) + seq![CLOSE_SENTINEL],
        None => Seq::empty(),
    }) + (match next {
        Some(s) => escape_code(Escape::Foreground(s.fg), shell),
        None => escape_code(Escape::Reset, shell),
    }));
}

/// One well-formed section `{fg,bg:text}` alone scans to exactly one
/// open boundary, the text, and one close boundary, and renders under
/// the bare mode as: foreground-of-bg, the open sentinel, foreground,
/// background, the text, reset, foreground-of-bg, the close sentinel,
/// reset — each directive as its SGR escape sequence.
pub proof fn lemma_single_section(fg: u8, bg: u8, text: Seq<char>)
    requires
        no_braces(text),
    ensures
        scan_spec(section_template(fg, bg, text)) == Ok::<Seq<Piece>, MetaError>(
            section_block(fg, bg, text),
        ),
        gen_spec(section_template(fg, bg, text), Shell::Any) == Ok::<Seq<char>, MetaError>(
            escape_code(Escape::Foreground(bg), Shell::Any) + seq![OPEN_SENTINEL] + escape_code(
                Escape::Foreground(fg),
                Shell::Any,
            ) + escape_code(Escape::Background(bg), Shell::Any) + text + escape_code(
                Escape::Reset,
                Shell::Any,
            ) + escape_code(Escape::Foreground(bg), Shell::Any) + seq![CLOSE_SENTINEL]
                + escape_code(Escape::Reset, Shell::Any),
        ),
{
    let sec = Section { fg, bg };
    let tpl = section_template(fg, bg, text);
    assert(tpl =~= section_template(fg, bg, text) + Seq::<char>::empty());
    lemma_full_section(fg, bg, text, Seq::empty(), Seq::empty(), None, None);
    assert(flush_now('{', None) == false);
    let st1 = Seq::<Section>::empty().push(sec);
    assert(pop_stack(st1) =~= Seq::<Section>::empty());
    assert(top_section(Seq::<Section>::empty()) is None);
    assert(scan_from(
        Seq::<char>::empty(),
        Seq::<Section>::empty(),
        Some(sec),
        Some(Brace::Close),
    ) == Ok::<Seq<Piece>, MetaError>(close_pieces(Some(sec), None)));
    assert(Seq::<Piece>::empty() + (open_pieces(Some(sec)) + text_pieces(text)) + close_pieces(
        Some(sec),
        None,
    ) =~= section_block(fg, bg, text));
    assert(scan_spec(tpl) == Ok::<Seq<Piece>, MetaError>(section_block(fg, bg, text)));
    lemma_render_open_pieces(sec, Shell::Any);
    lemma_render_close_pieces(Some(sec), None, Shell::Any);
    lemma_render_text(text, Shell::Any);
    assert(render(section_block(fg, bg, text), Shell::Any) =~= escape_code(
        Escape::Foreground(bg),
        Shell::Any,
    ) + seq![OPEN_SENTINEL] + escape_code(Escape::Foreground(fg), Shell::Any) + escape_code(
        Escape::Background(bg),
        Shell::Any,
    ) + text + escape_code(Escape::Reset, Shell::Any) + escape_code(
        Escape::Foreground(bg),
        Shell::Any,
    ) + seq![CLOSE_SENTINEL] + escape_code(Escape::Reset, Shell::Any));
}


/// Two sequential sections emit two independent boundary blocks, and
/// the content between them is copied through untouched.
pub proof fn lemma_sequential_sections(
    fg1: u8,
    bg1: u8,
    t1: Seq<char>,
    mid: Seq<char>,
    fg2: u8,
    bg2: u8,
    t2: Seq<char>,
)
    requires
        no_braces(t1),
        no_braces(mid),
        no_braces(t2),
    ensures
        scan_spec(
            section_template(fg1, bg1, t1) + mid + section_template(fg2, bg2, t2),
        ) == Ok::<Seq<Piece>, MetaError>(
            section_block(fg1, bg1, t1) + text_pieces(mid) + section_block(fg2, bg2, t2),
        ),
{
    let sec1 = Section { fg: fg1, bg: bg1 };
    let sec2 = Section { fg: fg2, bg: bg2 };
    let sect1 = section_template(fg1, bg1, t1);
    let sect2 = section_template(fg2, bg2, t2);
    let t = sect1 + mid + sect2;
    assert(t =~= sect1 + (mid + sect2));
    lemma_full_section(fg1, bg1, t1, mid + sect2, Seq::empty(), None, None);
    assert(flush_now('{', None) == false);
    let st1 = Seq::<Section>::empty().push(sec1);
    assert(pop_stack(st1) =~= Seq::<Section>::empty());
    let after1 = scan_from(mid + sect2, Seq::empty(), Some(sec1), Some(Brace::Close));
    if mid.len() > 0 {
        lemma_scan_text_run(mid, sect2, Seq::empty(), Some(sec1), Some(Brace::Close));
        assert(flush_now(mid[0], Some(Brace::Close)));
        assert(flushed_pieces(mid[0], Seq::empty(), Some(sec1), Some(Brace::Close))
            == close_pieces(Some(sec1), None));
        assert(active_after(mid[0], Seq::empty(), Some(sec1), Some(Brace::Close)) is None);
        assert(sect2 =~= sect2 + Seq::<char>::empty());
        lemma_full_section(fg2, bg2, t2, Seq::empty(), Seq::empty(), None, None);
        let st2 = Seq::<Section>::empty().push(sec2);
        assert(pop_stack(st2) =~= Seq::<Section>::empty());
        assert(scan_from(
            Seq::<char>::empty(),
            Seq::<Section>::empty(),
            Some(sec2),
            Some(Brace::Close),
        ) == Ok::<Seq<Piece>, MetaError>(close_pieces(Some(sec2), None)));
        assert(scan_from(sect2, Seq::<Section>::empty(), None, None) == Ok::<
            Seq<Piece>,
            MetaError,
        >(Seq::<Piece>::empty() + (open_pieces(Some(sec2)) + text_pieces(t2)) + close_pieces(
            Some(sec2),
            None,
        )));
        assert(after1 == Ok::<Seq<Piece>, MetaError>(
            close_pieces(Some(sec1), None) + text_pieces(mid) + (Seq::<Piece>::empty()
                + (open_pieces(Some(sec2)) + text_pieces(t2)) + close_pieces(Some(sec2), None)),
        ));
    } else {
        assert(mid + sect2 =~= sect2 + Seq::<char>::empty());
        lemma_full_section(fg2, bg2, t2, Seq::empty(), Seq::empty(), Some(sec1), Some(
            Brace::Close,
        ));
        assert(flush_now('{', Some(Brace::Close)));
        assert(flushed_pieces('{', Seq::empty(), Some(sec1), Some(Brace::Close)) == close_pieces(
            Some(sec1),
            None,
        ));
        let st2 = Seq::<Section>::empty().push(sec2);
        assert(pop_stack(st2) =~= Seq::<Section>::empty());
        assert(scan_from(
            Seq::<char>::empty(),
            Seq::<Section>::empty(),
            Some(sec2),
            Some(Brace::Close),
        ) == Ok::<Seq<Piece>, MetaError>(close_pieces(Some(sec2), None)));
        assert(text_pieces(mid) =~= Seq::<Piece>::empty());
        assert(after1 == Ok::<Seq<Piece>, MetaError>(
            close_pieces(Some(sec1), None) + (open_pieces(Some(sec2)) + text_pieces(t2))
                + close_pieces(Some(sec2), None),
        ));
    }
    assert(after1 is Ok);
    assert(after1->Ok_0 =~= close_pieces(Some(sec1), None) + text_pieces(mid) + open_pieces(
        Some(sec2),
    ) + text_pieces(t2) + close_pieces(Some(sec2), None));
    assert(scan_spec(t) == Ok::<Seq<Piece>, MetaError>(
        Seq::<Piece>::empty() + (open_pieces(Some(sec1)) + text_pieces(t1)) + after1->Ok_0,
    ));
    assert(Seq::<Piece>::empty() + (open_pieces(Some(sec1)) + text_pieces(t1)) + after1->Ok_0
        =~= section_block(fg1, bg1, t1) + text_pieces(mid) + section_block(fg2, bg2, t2));
}


/// A nested section emits, in order: the outer open boundary, the text
/// before the inner section, the inner open boundary, the inner text,
/// the inner close boundary — which transitions back toward the outer
/// section's colors, not to reset — the text after it, and the outer
/// close boundary, which transitions to reset. This holds whenever
/// non-brace text separates the boundaries; with no text between them,
/// adjacent braces of one kind collapse into a single boundary.
pub proof fn lemma_nested_sections(
    fgo: u8,
    bgo: u8,
    pre: Seq<char>,
    fgi: u8,
    bgi: u8,
    inner: Seq<char>,
    post: Seq<char>,
)
    requires
        no_braces(pre),
        no_braces(inner),
        no_braces(post),
        pre.len() > 0,
        post.len() > 0,
    ensures
        scan_spec(
            section_header(fgo, bgo) + pre + section_template(fgi, bgi, inner) + post
                + seq!['}'],
        ) == Ok::<Seq<Piece>, MetaError>(
            open_pieces(Some(Section { fg: fgo, bg: bgo })) + text_pieces(pre) + open_pieces(
                Some(Section { fg: fgi, bg: bgi }),
            ) + text_pieces(inner) + close_pieces(
                Some(Section { fg: fgi, bg: bgi }),
                Some(Section { fg: fgo, bg: bgo }),
            ) + text_pieces(post) + close_pieces(Some(Section { fg: fgo, bg: bgo }), None),
        ),
{
    let seco = Section { fg: fgo, bg: bgo };
    let seci = Section { fg: fgi, bg: bgi };
    let secti = section_template(fgi, bgi, inner);
    let t = section_header(fgo, bgo) + pre + secti + post + seq!['}'];
    let rest1 = pre + (secti + (post + seq!['}']));
    assert(t =~= section_header(fgo, bgo) + rest1);
    lemma_open_header(fgo, bgo, rest1, Seq::empty(), None, None);
    assert(flush_now('{', None) == false);
    let sto = Seq::<Section>::empty().push(seco);
    // the text before the inner section flushes the outer open boundary
    lemma_scan_text_run(pre, secti + (post + seq!['}']), sto, None, Some(Brace::Open));
    assert(flush_now(pre[0], Some(Brace::Open)));
    assert(top_section(sto) == Some(seco));
    assert(flushed_pieces(pre[0], sto, None, Some(Brace::Open)) == open_pieces(Some(seco)));
    assert(active_after(pre[0], sto, None, Some(Brace::Open)) == Some(seco));
    // the inner section
    assert(secti + (post + seq!['}']) =~= secti + (post + seq!['}']));
    lemma_full_section(fgi, bgi, inner, post + seq!['}'], sto, Some(seco), None);
    assert(flush_now('{', None) == false);
    assert(pop_stack(sto.push(seci)) =~= sto);
    // the text after it flushes the inner close boundary, back to the outer colors
    lemma_scan_text_run(post, seq!['}'], sto, Some(seci), Some(Brace::Close));
    assert(flush_now(post[0], Some(Brace::Close)));
    assert(flushed_pieces(post[0], sto, Some(seci), Some(Brace::Close)) == close_pieces(
        Some(seci),
        Some(seco),
    ));
    assert(active_after(post[0], sto, Some(seci), Some(Brace::Close)) == Some(seco));
    // the final closing brace, flushed at the end of the input
    let s2 = seq!['}'];
    assert(s2[0] == '}');
    assert(s2.drop_first() =~= Seq::<char>::empty());
    assert(flush_now('}', None) == false);
    assert(pop_stack(sto) =~= Seq::<Section>::empty());
    assert(scan_from(
        Seq::<char>::empty(),
        Seq::<Section>::empty(),
        Some(seco),
        Some(Brace::Close),
    ) == Ok::<Seq<Piece>, MetaError>(close_pieces(Some(seco), None)));
    assert(scan_from(s2, sto, Some(seco), None) == Ok::<Seq<Piece>, MetaError>(
        Seq::<Piece>::empty() + close_pieces(Some(seco), None),
    ));
    let out_post = scan_from(post + seq!['}'], sto, Some(seci), Some(Brace::Close));
    assert(out_post == Ok::<Seq<Piece>, MetaError>(
        close_pieces(Some(seci), Some(seco)) + text_pieces(post) + (Seq::<Piece>::empty()
            + close_pieces(Some(seco), None)),
    ));
    let out_inner = scan_from(secti + (post + seq!['}']), sto, Some(seco), None);
    assert(out_inner == Ok::<Seq<Piece>, MetaError>(
        Seq::<Piece>::empty() + (open_pieces(Some(seci)) + text_pieces(inner))
            + out_post->Ok_0,
    ));
    let out_pre = scan_from(rest1, sto, None, Some(Brace::Open));
    assert(out_pre == Ok::<Seq<Piece>, MetaError>(
        open_pieces(Some(seco)) + text_pieces(pre) + out_inner->Ok_0,
    ));
    assert(scan_spec(t) == Ok::<Seq<Piece>, MetaError>(
        Seq::<Piece>::empty() + out_pre->Ok_0,
    ));
    assert(Seq::<Piece>::empty() + out_pre->Ok_0 =~= open_pieces(Some(seco)) + text_pieces(pre)
        + open_pieces(Some(seci)) + text_pieces(inner) + close_pieces(Some(seci), Some(seco))
        + text_pieces(post) + close_pieces(Some(seco), None));
}


/// Shell wrapping is a pure textual transform. The scan — and so which
/// templates succeed and with which error — does not depend on the
/// shell mode; successful outputs render the same pieces; literal
/// characters (template text and the sentinels) render identically
/// under every mode; and each escape sequence of the bare mode is
/// wrapped, as a whole, in `%{`/`%}` for Zsh and in `\[`/`\]` for
/// Bash.
pub proof fn lemma_shell_wrapping(t: Seq<char>)
    ensures
        gen_spec(t, Shell::Zsh) is Ok <==> gen_spec(t, Shell::Any) is Ok,
        gen_spec(t, Shell::Bash) is Ok <==> gen_spec(t, Shell::Any) is Ok,
        gen_spec(t, Shell::Zsh) is Err ==> gen_spec(t, Shell::Zsh) == gen_spec(t, Shell::Any),
        gen_spec(t, Shell::Bash) is Err ==> gen_spec(t, Shell::Bash) == gen_spec(t, Shell::Any),
        gen_spec(t, Shell::Any) is Ok ==> gen_spec(t, Shell::Any)->Ok_0 == render(
            scan_spec(t)->Ok_0,
            Shell::Any,
        ) && gen_spec(t, Shell::Zsh)->Ok_0 == render(scan_spec(t)->Ok_0, Shell::Zsh) && gen_spec(
            t,
            Shell::Bash,
        )->Ok_0 == render(scan_spec(t)->Ok_0, Shell::Bash),
        forall|e: Escape| #[trigger] escape_code(e, Shell::Zsh) == "%{"@ + escape_code(
            e,
            Shell::Any,
        ) + "%}"@,
        forall|e: Escape| #[trigger] escape_code(e, Shell::Bash) == "\\["@ + escape_code(
            e,
            Shell::Any,
        ) + "\\]"@,
        forall|c: char| #[trigger] render_piece(Piece::Ch(c), Shell::Zsh) == render_piece(
            Piece::Ch(c),
            Shell::Any,
        ),
        forall|c: char| #[trigger] render_piece(Piece::Ch(c), Shell::Bash) == render_piece(
            Piece::Ch(c),
            Shell::Any,
        ),
{
    assert forall|e: Escape| #[trigger] escape_code(e, Shell::Zsh) == "%{"@ + escape_code(
        e,
        Shell::Any,
    ) + "%}"@ by {
        reveal_strlit("%{");
        reveal_strlit("%}");
        assert(escape_code(e, Shell::Zsh) =~= "%{"@ + escape_code(e, Shell::Any) + "%}"@);
    }
    assert forall|e: Escape| #[trigger] escape_code(e, Shell::Bash) == "\\["@ + escape_code(
        e,
        Shell::Any,
    ) + "\\]"@ by {
        reveal_strlit("\\[");
        reveal_strlit("\\]");
        assert(escape_code(e, Shell::Bash) =~= "\\["@ + escape_code(e, Shell::Any) + "\\]"@);
    }
}

} // verus!
