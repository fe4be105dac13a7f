//! The scanning loop and boundary emitter.
//!
//! The scanner walks the template one character at a time, keeping a
//! stack of the sections that are open and the kind of the last brace
//! seen but not yet flushed. Whenever the pending brace kind changes, it
//! emits one boundary: the escape directives that move the terminal from
//! the colors active before the brace to the colors active after it.
//! [`scan_from`] is the specification of that machine as a function from
//! the remaining input and machine state to the emitted pieces, and
//! [`generate`] is the executable scanner, proved to produce exactly the
//! rendering of those pieces.

use vstd::prelude::*;
use vstd::string::StrSliceExecFns;

use crate::codes::{
    char_pieces, lemma_render_char, lemma_render_concat, lemma_render_one, push_char,
    push_escape_code, render, Escape, Piece, Shell, CLOSE_SENTINEL, OPEN_SENTINEL,
};
use crate::meta::{
    error_message, meta_error_text, parse_meta, read_meta, scan_len, MetaError, Section,
};

verus! {

broadcast use lemma_render_concat, lemma_render_one, lemma_render_char;

/// The kind of the last brace processed and not yet flushed.
#[derive(Copy, Clone)]
pub enum Brace {
    Open,
    Close,
}

/// The character a brace kind stands for.
pub open spec fn brace_char(b: Brace) -> char {
    match b {
        Brace::Open => '{',
        Brace::Close => '}',
    }
}

/// The section rendered at the top of the stack, if any.
pub open spec fn top_section(stack: Seq<Section>) -> Option<Section> {
    if stack.len() == 0 {
        None
    } else {
        Some(stack.last())
    }
}

/// The stack after a closing brace: popping an empty stack is a no-op.
pub open spec fn pop_stack(stack: Seq<Section>) -> Seq<Section> {
    if stack.len() == 0 {
        stack
    } else {
        stack.drop_last()
    }
}

/// Pieces emitted when crossing an opening brace: paint the new
/// background color as a foreground, drop the open sentinel glyph, then
/// set the new foreground and background. Nothing when no section is
/// active after the brace.
pub open spec fn open_pieces(next: Option<Section>) -> Seq<Piece> {
    match next {
        Some(s) => seq![
            Piece::Code(Escape::Foreground(s.bg)),
            Piece::Ch(OPEN_SENTINEL),
            Piece::Code(Escape::Foreground(s.fg)),
            Piece::Code(Escape::Background(s.bg)),
        ],
        None => Seq::empty(),
    }
}

/// Pieces emitted when crossing a closing brace: restore the background
/// of the section that remains (or reset), un-paint the closed section's
/// background with the close sentinel glyph, then restore the remaining
/// foreground (or reset). `current` is the section active before the
/// pop, `next` the one active after it.
pub open spec fn close_pieces(current: Option<Section>, next: Option<Section>) -> Seq<Piece> {
    (match next {
        Some(s) => seq![Piece::Code(Escape::Background(s.bg))],
        None => seq![Piece::Code(Escape::Reset)],
    }) + (match current {
        Some(c) => seq![Piece::Code(Escape::Foreground(c.bg)), Piece::Ch(CLOSE_SENTINEL)],
        None => Seq::empty(),
    }) + (match next {
        Some(s) => seq![Piece::Code(Escape::Foreground(s.fg))],
        None => seq![Piece::Code(Escape::Reset)],
    })
}

/// Pieces emitted at one boundary crossing of the given brace kind.
pub open spec fn boundary_pieces(b: Brace, current: Option<Section>, next: Option<Section>) -> Seq<
    Piece,
> {
    match b {
        Brace::Open => open_pieces(next),
        Brace::Close => close_pieces(current, next),
    }
}

/// Whether a pending brace is flushed before processing character `c`:
/// only when a brace is pending and `c` is not the same brace character.
pub open spec fn flush_now(c: char, pending: Option<Brace>) -> bool {
    match pending {
        Some(b) => brace_char(b) != c,
        None => false,
    }
}

/// The boundary pieces that the flush before `c` emits, if any.
pub open spec fn flushed_pieces(
    c: char,
    stack: Seq<Section>,
    active: Option<Section>,
    pending: Option<Brace>,
) -> Seq<Piece> {
    if flush_now(c, pending) {
        boundary_pieces(pending->0, active, top_section(stack))
    } else {
        Seq::empty()
    }
}

/// The active section after the flush before `c`: a flush remembers the
/// stack top as the new rendering context.
pub open spec fn active_after(
    c: char,
    stack: Seq<Section>,
    active: Option<Section>,
    pending: Option<Brace>,
) -> Option<Section> {
    if flush_now(c, pending) {
        top_section(stack)
    } else {
        active
    }
}

/// One state of the scanner, and what it emits on the rest of the input.
///
/// `s` is the input still to be read, `stack` the open sections
/// (outermost first), `active` the section that was on top of the stack
/// at the last boundary flush, and `pending` the kind of the last brace
/// processed, not yet flushed. A pending brace is flushed as soon as a
/// character of the other kind arrives — runs of equal braces collapse
/// into a single boundary — and once more at the end of the input.
/// Popping an empty stack is tolerated as a no-op.
pub open spec fn scan_from(
    s: Seq<char>,
    stack: Seq<Section>,
    active: Option<Section>,
    pending: Option<Brace>,
) -> Result<Seq<Piece>, MetaError>
    decreases s.len(),
{
    if s.len() == 0 {
        match pending {
            Some(b) => Ok(boundary_pieces(b, active, top_section(stack))),
            None => Ok(Seq::empty()),
        }
    } else {
        let c = s[0];
        let emitted = flushed_pieces(c, stack, active, pending);
        let act = active_after(c, stack, active, pending);
        if c == '{' {
            let rest = s.drop_first();
            let mlen = scan_len(rest, ':') as int;
            let consumed = if mlen < rest.len() {
                mlen + 1
            } else {
                rest.len() as int
            };
            match parse_meta(rest.take(mlen)) {
                Ok(sec) => match scan_from(
                    rest.skip(consumed),
                    stack.push(sec),
                    act,
                    Some(Brace::Open),
                ) {
                    Ok(t) => Ok(emitted + t),
                    Err(e) => Err(e),
                },
                Err(e) => Err(e),
            }
        } else if c == '}' {
            match scan_from(s.drop_first(), pop_stack(stack), act, Some(Brace::Close)) {
                Ok(t) => Ok(emitted + t),
                Err(e) => Err(e),
            }
        } else {
            match scan_from(s.drop_first(), stack, act, None) {
                Ok(t) => Ok(emitted + char_pieces(c) + t),
                Err(e) => Err(e),
            }
        }
    }
}

/// What scanning a whole template emits, starting from the empty state.
pub open spec fn scan_spec(t: Seq<char>) -> Result<Seq<Piece>, MetaError> {
    scan_from(t, Seq::empty(), None, None)
}

/// What `generate` returns for a template under a shell mode: the
/// scanned pieces rendered for that shell, or the scan's error.
pub open spec fn gen_spec(t: Seq<char>, shell: Shell) -> Result<Seq<char>, MetaError> {
    match scan_spec(t) {
        Ok(ps) => Ok(render(ps, shell)),
        Err(e) => Err(e),
    }
}

/// Unfolds one scan step on a closing brace.
pub proof fn lemma_scan_step_close(
    s: Seq<char>,
    stack: Seq<Section>,
    active: Option<Section>,
    pending: Option<Brace>,
)
    requires
        s.len() > 0,
        s[0] == '}',
    ensures
        scan_from(s, stack, active, pending) == (match scan_from(
            s.drop_first(),
            pop_stack(stack),
            active_after('}', stack, active, pending),
            Some(Brace::Close),
        ) {
            Ok(t) => Ok::<Seq<Piece>, MetaError>(
                flushed_pieces('}', stack, active, pending) + t,
            ),
            Err(e) => Err::<Seq<Piece>, MetaError>(e),
        }),
{
}

/// Unfolds one scan step on an opening brace: the section reader
/// consumes the metadata through the `:`, and its outcome decides
/// whether the scan continues or stops with its error.
pub proof fn lemma_scan_step_open(
    s: Seq<char>,
    stack: Seq<Section>,
    active: Option<Section>,
    pending: Option<Brace>,
)
    requires
        s.len() > 0,
        s[0] == '{',
    ensures
        ({
            let rest = s.drop_first();
            let mlen = scan_len(rest, ':') as int;
            let consumed = if mlen < rest.len() {
                mlen + 1
            } else {
                rest.len() as int
            };
            match parse_meta(rest.take(mlen)) {
                Ok(sec) => scan_from(s, stack, active, pending) == (match scan_from(
                    rest.skip(consumed),
                    stack.push(sec),
                    active_after('{', stack, active, pending),
                    Some(Brace::Open),
                ) {
                    Ok(t) => Ok::<Seq<Piece>, MetaError>(
                        flushed_pieces('{', stack, active, pending) + t,
                    ),
                    Err(e) => Err::<Seq<Piece>, MetaError>(e),
                }),
                Err(e) => scan_from(s, stack, active, pending) == Err::<Seq<Piece>, MetaError>(e),
            }
        }),
{
}

/// The executable scanner's loop invariant: the output rendered so far
/// (`buf`) plus the rendering of what the rest of the scan emits equals
/// the rendering of the whole template's scan; errors agree.
spec fn scan_inv(
    t: Seq<char>,
    i: int,
    stack: Seq<Section>,
    active: Option<Section>,
    pending: Option<Brace>,
    buf: Seq<char>,
    shell: Shell,
) -> bool {
    match scan_from(t.skip(i), stack, active, pending) {
        Ok(tail) => scan_spec(t) matches Ok(all) && render(all, shell) == buf + render(
            tail,
            shell,
        ),
        Err(e) => scan_spec(t) == Err::<Seq<Piece>, MetaError>(e),
    }
}

proof fn lemma_inv_init(t: Seq<char>, shell: Shell)
    ensures
        scan_inv(t, 0, Seq::empty(), None, None, Seq::empty(), shell),
{
    assert(t.skip(0) =~= t);
    if scan_spec(t) is Ok {
        assert(Seq::<char>::empty() + render(scan_spec(t)->Ok_0, shell) =~= render(
            scan_spec(t)->Ok_0,
            shell,
        ));
    }
}

proof fn lemma_inv_text(
    t: Seq<char>,
    i: int,
    c: char,
    stack: Seq<Section>,
    active: Option<Section>,
    pending: Option<Brace>,
    buf: Seq<char>,
    shell: Shell,
)
    requires
        0 <= i < t.len(),
        t[i] == c,
        c != '{',
        c != '}',
        scan_inv(t, i, stack, active, pending, buf, shell),
    ensures
        scan_inv(
            t,
            i + 1,
            stack,
            active_after(c, stack, active, pending),
            None,
            (buf + render(flushed_pieces(c, stack, active, pending), shell)).push(c),
            shell,
        ),
{
    let s = t.skip(i);
    assert(s[0] == c);
    assert(s.drop_first() =~= t.skip(i + 1));
    let emitted = flushed_pieces(c, stack, active, pending);
    let tail1 = scan_from(t.skip(i + 1), stack, active_after(c, stack, active, pending), None);
    if tail1 is Ok {
        let tail = emitted + char_pieces(c) + tail1->Ok_0;
        assert(scan_from(s, stack, active, pending) == Ok::<Seq<Piece>, MetaError>(tail));
        assert(render(tail, shell) == (render(emitted, shell) + seq![c]) + render(
            tail1->Ok_0,
            shell,
        ));
        assert(render(scan_spec(t)->Ok_0, shell) == buf + render(tail, shell));
        assert(render(scan_spec(t)->Ok_0, shell) =~= (buf + render(emitted, shell)).push(c)
            + render(tail1->Ok_0, shell));
    }
}

proof fn lemma_inv_close(
    t: Seq<char>,
    i: int,
    stack: Seq<Section>,
    active: Option<Section>,
    pending: Option<Brace>,
    buf: Seq<char>,
    shell: Shell,
)
    requires
        0 <= i < t.len(),
        t[i] == '}',
        scan_inv(t, i, stack, active, pending, buf, shell),
    ensures
        scan_inv(
            t,
            i + 1,
            pop_stack(stack),
            active_after('}', stack, active, pending),
            Some(Brace::Close),
            buf + render(flushed_pieces('}', stack, active, pending), shell),
            shell,
        ),
{
    let s = t.skip(i);
    assert(s[0] == t[i]);
    assert(s.drop_first() =~= t.skip(i + 1));
    lemma_scan_step_close(s, stack, active, pending);
    let emitted = flushed_pieces('}', stack, active, pending);
    let tail1 = scan_from(
        t.skip(i + 1),
        pop_stack(stack),
        active_after('}', stack, active, pending),
        Some(Brace::Close),
    );
    if tail1 is Ok {
        lemma_render_concat(emitted, tail1->Ok_0, shell);
        assert(render(scan_spec(t)->Ok_0, shell) =~= (buf + render(emitted, shell)) + render(
            tail1->Ok_0,
            shell,
        ));
    }
}

proof fn lemma_inv_open(
    t: Seq<char>,
    i: int,
    stack: Seq<Section>,
    active: Option<Section>,
    pending: Option<Brace>,
    buf: Seq<char>,
    shell: Shell,
)
    requires
        0 <= i < t.len(),
        t[i] == '{',
        scan_inv(t, i, stack, active, pending, buf, shell),
    ensures
        ({
            let rest = t.skip(i + 1);
            let mlen = scan_len(rest, ':') as int;
            let consumed = if mlen < rest.len() {
                mlen + 1
            } else {
                rest.len() as int
            };
            match parse_meta(rest.take(mlen)) {
                Ok(sec) => scan_inv(
                    t,
                    i + 1 + consumed,
                    stack.push(sec),
                    active_after('{', stack, active, pending),
                    Some(Brace::Open),
                    buf + render(flushed_pieces('{', stack, active, pending), shell),
                    shell,
                ),
                Err(e) => scan_spec(t) == Err::<Seq<Piece>, MetaError>(e),
            }
        }),
{
    let s = t.skip(i);
    assert(s[0] == t[i]);
    assert(s.drop_first() =~= t.skip(i + 1));
    lemma_scan_step_open(s, stack, active, pending);
    let rest = t.skip(i + 1);
    let mlen = scan_len(rest, ':') as int;
    let consumed = if mlen < rest.len() {
        mlen + 1
    } else {
        rest.len() as int
    };
    assert(rest.skip(consumed) =~= t.skip(i + 1 + consumed));
    if parse_meta(rest.take(mlen)) is Ok {
        let sec = parse_meta(rest.take(mlen))->Ok_0;
        let emitted = flushed_pieces('{', stack, active, pending);
        let tail1 = scan_from(
            t.skip(i + 1 + consumed),
            stack.push(sec),
            active_after('{', stack, active, pending),
            Some(Brace::Open),
        );
        if tail1 is Ok {
            lemma_render_concat(emitted, tail1->Ok_0, shell);
            assert(render(scan_spec(t)->Ok_0, shell) =~= (buf + render(emitted, shell)) + render(
                tail1->Ok_0,
                shell,
            ));
        }
    }
}

proof fn lemma_inv_end(
    t: Seq<char>,
    stack: Seq<Section>,
    active: Option<Section>,
    pending: Option<Brace>,
    buf: Seq<char>,
    shell: Shell,
)
    requires
        scan_inv(t, t.len() as int, stack, active, pending, buf, shell),
    ensures
        pending matches Some(b) ==> gen_spec(t, shell) == Ok::<Seq<char>, MetaError>(
            buf + render(boundary_pieces(b, active, top_section(stack)), shell),
        ),
        pending is None ==> gen_spec(t, shell) == Ok::<Seq<char>, MetaError>(buf),
{
    assert(t.skip(t.len() as int) =~= Seq::<char>::empty());
    if pending is None {
        assert(buf + render(Seq::<Piece>::empty(), shell) =~= buf);
    }
}

fn top(sections: &Vec<Section>) -> (r: Option<Section>)
    ensures
        r == top_section(sections@),
{
    if sections.len() > 0 {
        Some(sections[sections.len() - 1])
    } else {
        None
    }
}

/// Appends the rendering of one boundary crossing to the buffer.
#[verifier::rlimit(100)]
pub fn push_brace(
    buffer: &mut String,
    brace: Brace,
    current: Option<Section>,
    next: Option<Section>,
    shell: Shell,
)
    ensures
        final(buffer)@ == old(buffer)@ + render(boundary_pieces(brace, current, next), shell),
{
    match brace {
        Brace::Open => {
            match next {
                Some(sec) => {
                    push_escape_code(buffer, Escape::Foreground(sec.bg), shell);
                    push_char(buffer, OPEN_SENTINEL);
                    push_escape_code(buffer, Escape::Foreground(sec.fg), shell);
                    push_escape_code(buffer, Escape::Background(sec.bg), shell);
                    proof {
                        let ps = open_pieces(next);
                        assert(ps =~= seq![ps[0]] + seq![ps[1]] + seq![ps[2]] + seq![ps[3]]);
                        lemma_render_concat(
                            seq![ps[0]] + seq![ps[1]] + seq![ps[2]],
                            seq![ps[3]],
                            shell,
                        );
                        lemma_render_concat(seq![ps[0]] + seq![ps[1]], seq![ps[2]], shell);
                        lemma_render_concat(seq![ps[0]], seq![ps[1]], shell);
                        lemma_render_one(ps[0], shell);
                        lemma_render_one(ps[1], shell);
                        lemma_render_one(ps[2], shell);
                        lemma_render_one(ps[3], shell);
                        assert(final(buffer)@ =~= old(buffer)@ + render(ps, shell));
                    }
                },
                None => {
                    assert(final(buffer)@ =~= old(buffer)@ + render(
                        boundary_pieces(brace, current, next),
                        shell,
                    ));
                },
            }
        },
        Brace::Close => {
            match next {
                Some(sec) => push_escape_code(buffer, Escape::Background(sec.bg), shell),
                None => push_escape_code(buffer, Escape::Reset, shell),
            }
            match current {
                Some(cur) => {
                    push_escape_code(buffer, Escape::Foreground(cur.bg), shell);
                    push_char(buffer, CLOSE_SENTINEL);
                },
                None => {},
            }
            match next {
                Some(sec) => push_escape_code(buffer, Escape::Foreground(sec.fg), shell),
                None => push_escape_code(buffer, Escape::Reset, shell),
            }
            proof {
                let first = match next {
                    Some(s) => seq![Piece::Code(Escape::Background(s.bg))],
                    None => seq![Piece::Code(Escape::Reset)],
                };
                let mid = match current {
                    Some(c) => seq![
                        Piece::Code(Escape::Foreground(c.bg)),
                        Piece::Ch(CLOSE_SENTINEL),
                    ],
                    None => Seq::<Piece>::empty(),
                };
                let last = match next {
                    Some(s) => seq![Piece::Code(Escape::Foreground(s.fg))],
                    None => seq![Piece::Code(Escape::Reset)],
                };
                lemma_render_concat(first + mid, last, shell);
                lemma_render_concat(first, mid, shell);
                lemma_render_one(first[0], shell);
                lemma_render_one(last[0], shell);
                if current is Some {
                    assert(mid =~= seq![mid[0]] + seq![mid[1]]);
                    lemma_render_concat(seq![mid[0]], seq![mid[1]], shell);
                    lemma_render_one(mid[0], shell);
                    lemma_render_one(mid[1], shell);
                }
                assert(final(buffer)@ =~= old(buffer)@ + render(
                    close_pieces(current, next),
                    shell,
                ));
            }
        },
    }
}

/// Collects the characters of a string slice into a vector.
fn collect_chars(s: &str) -> (v: Vec<char>)
    ensures
        v@ == s@,
{
    let n: usize = s.unicode_len();
    let mut v: Vec<char> = Vec::new();
    let mut i: usize = 0;
    while i < n
        invariant
            i <= n,
            n == s@.len(),
            v@ == s@.take(i as int),
        decreases n - i,
    {
        let c = s.get_char(i);
        v.push(c);
        proof {
            assert(s@.take(i + 1) =~= s@.take(i as int).push(s@[i as int]));
        }
        i = i + 1;
    }
    proof {
        assert(s@.take(n as int) =~= s@);
    }
    v
}

/// Renders a template: literal text is copied through, and each color
/// directive `{fg,bg:...}` becomes the boundary escape sequences of
/// [`scan_from`], wrapped for the given shell. Returns the rendered
/// string, or the section reader's error message for the first rejected
/// directive.
pub fn generate(template: &str, shell: Shell) -> (r: Result<String, String>)
    ensures
        gen_spec(template@, shell) matches Ok(out) ==> r matches Ok(res) && res@ == out,
        gen_spec(template@, shell) matches Err(e) ==> r matches Err(msg) && msg@
            == meta_error_text(e),
{
    let chars = collect_chars(template);
    let n: usize = chars.len();
    let mut buffer = String::new();
    let mut sections: Vec<Section> = Vec::new();
    let mut active: Option<Section> = None;
    let mut pending: Option<Brace> = None;
    let mut i: usize = 0;
    proof {
        lemma_inv_init(template@, shell);
    }
    while i < n
        invariant
            i <= n,
            n == chars@.len(),
            chars@ == template@,
            scan_inv(template@, i as int, sections@, active, pending, buffer@, shell),
        decreases n - i,
    {
        let ghost st0 = sections@;
        let ghost act0 = active;
        let ghost pend0 = pending;
        let ghost buf0 = buffer@;
        let c = chars[i];
        let ghost emitted = flushed_pieces(c, st0, act0, pend0);
        match pending {
            Some(b) => {
                let differs = match b {
                    Brace::Open => c != '{',
                    Brace::Close => c != '}',
                };
                if differs {
                    let nx = top(&sections);
                    push_brace(&mut buffer, b, active, nx, shell);
                    active = nx;
                }
            },
            None => {},
        }
        proof {
            if !flush_now(c, pend0) {
                assert(buf0 + render(emitted, shell) =~= buf0);
            }
            assert(buffer@ == buf0 + render(emitted, shell));
            assert(active == active_after(c, st0, act0, pend0));
        }
        if c == '{' {
            proof {
                lemma_inv_open(template@, i as int, st0, act0, pend0, buf0, shell);
            }
            let (res, j) = read_meta(&chars, i + 1);
            match res {
                Ok(sec) => {
                    sections.push(sec);
                    pending = Some(Brace::Open);
                    i = j;
                },
                Err(e) => {
                    return Err(error_message(e));
                },
            }
        } else if c == '}' {
            proof {
                lemma_inv_close(template@, i as int, st0, act0, pend0, buf0, shell);
            }
            let _popped = sections.pop();
            pending = Some(Brace::Close);
            proof {
                assert(sections@ =~= pop_stack(st0));
            }
            i = i + 1;
        } else {
            proof {
                lemma_inv_text(template@, i as int, c, st0, act0, pend0, buf0, shell);
            }
            push_char(&mut buffer, c);
            pending = None;
            proof {
                assert(buffer@ == (buf0 + render(emitted, shell)).push(c));
            }
            i = i + 1;
        }
    }
    proof {
        lemma_inv_end(template@, sections@, active, pending, buffer@, shell);
    }
    match pending {
        Some(b) => {
            let nx = top(&sections);
            push_brace(&mut buffer, b, active, nx, shell);
        },
        None => {},
    }
    Ok(buffer)
}

} // verus!
