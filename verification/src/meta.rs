//! The section reader: parsing `fg,bg` color metadata.
//!
//! The text between an opening brace and the next `:` must split on a
//! single comma into exactly two fields, each an unsigned 8-bit decimal
//! number. The numeric grammar mirrors the standard library's unsigned
//! integer parser: an optional leading `+`, then decimal digits, with the
//! same three failure kinds and failure messages.

use vstd::prelude::*;
use vstd::string::StringExecFns;

verus! {

/// One nested color region: a 256-color foreground/background pair.
#[derive(Copy, Clone)]
pub struct Section {
    pub fg: u8,
    pub bg: u8,
}

/// Why a color field failed to parse as an unsigned 8-bit number.
#[derive(Copy, Clone)]
pub enum NumError {
    /// The field was empty.
    Empty,
    /// A character other than a decimal digit was found.
    InvalidDigit,
    /// The value does not fit in 8 bits.
    TooLarge,
}

/// Why a `{fg,bg:` prefix was rejected.
#[derive(Copy, Clone)]
pub enum MetaError {
    /// The metadata did not split into exactly two comma-separated fields.
    MalformedMetadata,
    /// The foreground field is not an unsigned 8-bit number.
    InvalidFg(NumError),
    /// The background field is not an unsigned 8-bit number.
    InvalidBg(NumError),
}

/// Whether `c` is a decimal digit.
pub open spec fn is_digit(c: char) -> bool {
    '0' as u32 <= c as u32 && c as u32 <= '9' as u32
}

/// The numeric value of a decimal digit character.
pub open spec fn digit_value(c: char) -> int {
    c as u32 - '0' as u32
}

/// Folds decimal digits into an accumulator, left to right. At each
/// character: a non-digit fails first, then a value that would exceed
/// 8 bits fails, exactly as the standard library's parser does.
pub open spec fn parse_digits(s: Seq<char>, acc: u8) -> Result<u8, NumError>
    decreases s.len(),
{
    if s.len() == 0 {
        Ok(acc)
    } else if !is_digit(s[0]) {
        Err(NumError::InvalidDigit)
    } else if acc * 10 + digit_value(s[0]) > 255 {
        Err(NumError::TooLarge)
    } else {
        parse_digits(s.drop_first(), (acc * 10 + digit_value(s[0])) as u8)
    }
}

/// Parses a whole field as an unsigned 8-bit number: empty input fails
/// as empty, a lone `+` fails as an invalid digit, an optional leading
/// `+` is skipped, and the rest must be digits whose value fits.
pub open spec fn parse_u8(s: Seq<char>) -> Result<u8, NumError> {
    if s.len() == 0 {
        Err(NumError::Empty)
    } else if s[0] == '+' {
        if s.len() == 1 {
            Err(NumError::InvalidDigit)
        } else {
            parse_digits(s.drop_first(), 0)
        }
    } else {
        parse_digits(s, 0)
    }
}

/// Length of the longest prefix of `s` free of the `stop` character;
/// `s.len()` when `stop` does not occur.
pub open spec fn scan_len(s: Seq<char>, stop: char) -> nat
    decreases s.len(),
{
    if s.len() == 0 {
        0
    } else if s[0] == stop {
        0
    } else {
        1 + scan_len(s.drop_first(), stop)
    }
}

/// How many commas `s` holds. Splitting on commas yields one more field
/// than this count.
pub open spec fn comma_count(s: Seq<char>) -> nat
    decreases s.len(),
{
    if s.len() == 0 {
        0
    } else if s[0] == ',' {
        1 + comma_count(s.drop_first())
    } else {
        comma_count(s.drop_first())
    }
}

/// Parses section metadata: the text must hold exactly one comma (two
/// fields), and each field must parse as an unsigned 8-bit number; a bad
/// foreground is reported before a bad background.
pub open spec fn parse_meta(m: Seq<char>) -> Result<Section, MetaError> {
    if comma_count(m) != 1 {
        Err(MetaError::MalformedMetadata)
    } else {
        let k = scan_len(m, ',') as int;
        match parse_u8(m.take(k)) {
            Ok(fg) => match parse_u8(m.skip(k + 1)) {
                Ok(bg) => Ok(Section { fg, bg }),
                Err(e) => Err(MetaError::InvalidBg(e)),
            },
            Err(e) => Err(MetaError::InvalidFg(e)),
        }
    }
}

/// The message text for a numeric failure, identical to the standard
/// library's wording.
pub open spec fn num_error_text(e: NumError) -> Seq<char> {
    match e {
        NumError::Empty => "cannot parse integer from empty string"@,
        NumError::InvalidDigit => "invalid digit found in string"@,
        NumError::TooLarge => "number too large to fit in target type"@,
    }
}

/// The message text for a rejected section prefix, naming the field that
/// failed and echoing the numeric failure reason.
pub open spec fn meta_error_text(e: MetaError) -> Seq<char> {
    match e {
        MetaError::MalformedMetadata => "Both fg and bg should be specified"@,
        MetaError::InvalidFg(p) => "Invalid fg: "@ + num_error_text(p),
        MetaError::InvalidBg(p) => "Invalid bg: "@ + num_error_text(p),
    }
}

fn num_error_str(e: NumError) -> (r: &'static str)
    ensures
        r@ == num_error_text(e),
{
    match e {
        NumError::Empty => "cannot parse integer from empty string",
        NumError::InvalidDigit => "invalid digit found in string",
        NumError::TooLarge => "number too large to fit in target type",
    }
}

/// Builds the error message for a rejected section prefix.
pub fn error_message(e: MetaError) -> (r: String)
    ensures
        r@ == meta_error_text(e),
{
    match e {
        MetaError::MalformedMetadata => "Both fg and bg should be specified".to_owned(),
        MetaError::InvalidFg(p) => {
            let mut s = "Invalid fg: ".to_owned();
            s.append(num_error_str(p));
            s
        },
        MetaError::InvalidBg(p) => {
            let mut s = "Invalid bg: ".to_owned();
            s.append(num_error_str(p));
            s
        },
    }
}

fn digit_of(c: char) -> (r: Option<u8>)
    ensures
        r is Some <==> is_digit(c),
        r matches Some(d) ==> d == digit_value(c) && d < 10,
{
    let u: u32 = c as u32;
    if 48 <= u && u <= 57 {
        Some((u - 48) as u8)
    } else {
        None
    }
}

/// Parses the characters of `v` in `[from, to)` as an unsigned 8-bit
/// number, with the standard library's grammar and failure kinds.
pub fn parse_color(v: &Vec<char>, from: usize, to: usize) -> (r: Result<u8, NumError>)
    requires
        from <= to <= v@.len(),
    ensures
        r == parse_u8(v@.subrange(from as int, to as int)),
{
    let ghost s = v@.subrange(from as int, to as int);
    if from == to {
        return Err(NumError::Empty);
    }
    let mut idx: usize = from;
    if v[idx] == '+' {
        if from + 1 == to {
            return Err(NumError::InvalidDigit);
        }
        idx = from + 1;
        proof {
            assert(s.drop_first() =~= s.skip(1));
        }
    }
    proof {
        assert(s.skip(0) =~= s);
    }
    let mut acc: u8 = 0;
    while idx < to
        invariant
            from <= idx <= to <= v@.len(),
            s == v@.subrange(from as int, to as int),
            parse_u8(s) == parse_digits(s.skip(idx - from), acc),
        decreases to - idx,
    {
        let ghost rem = s.skip(idx - from);
        let c = v[idx];
        proof {
            assert(rem[0] == c);
            assert(rem.drop_first() =~= s.skip(idx + 1 - from));
        }
        match digit_of(c) {
            Some(d) => {
                let wide: u32 = acc as u32 * 10 + d as u32;
                if wide > 255 {
                    return Err(NumError::TooLarge);
                }
                acc = wide as u8;
                idx = idx + 1;
            },
            _ => {
                return Err(NumError::InvalidDigit);
            },
        }
    }
    proof {
        assert(s.skip(to - from) =~= Seq::<char>::empty());
    }
    Ok(acc)
}

/// `scan_len` is the index of the first `stop` character: it is bounded
/// by the length, the prefix it measures is `stop`-free, and it points
/// at a `stop` character whenever one occurs.
pub proof fn lemma_scan_len_at(s: Seq<char>, stop: char, n: int)
    requires
        0 <= n <= s.len(),
        forall|k: int| 0 <= k < n ==> s[k] != stop,
        n < s.len() ==> s[n] == stop,
    ensures
        scan_len(s, stop) == n,
    decreases n,
{
    if n == 0 {
    } else {
        assert(s[0] != stop);
        lemma_scan_len_at(s.drop_first(), stop, n - 1);
    }
}

/// Adding one character to a sequence adds its comma to the count.
pub proof fn lemma_comma_count_push(s: Seq<char>, c: char)
    ensures
        comma_count(s.push(c)) == comma_count(s) + if c == ',' {
            1int
        } else {
            0int
        },
    decreases s.len(),
{
    if s.len() == 0 {
        assert(s.push(c)[0] == c);
        assert(s.push(c).drop_first() =~= Seq::<char>::empty());
        assert(comma_count(Seq::<char>::empty()) == 0);
        assert(comma_count(s) == 0);
    } else {
        assert(s.push(c)[0] == s[0]);
        assert(s.push(c).drop_first() =~= s.drop_first().push(c));
        lemma_comma_count_push(s.drop_first(), c);
    }
}

/// Reads section metadata out of `chars` starting at `start` (the index
/// just after the opening brace): consumes up to and including the next
/// `:`, or the whole rest when no `:` occurs, and parses what came
/// before the `:` as a `fg,bg` pair. Returns the parse outcome together
/// with the index of the first unconsumed character.
pub fn read_meta(chars: &Vec<char>, start: usize) -> (r: (Result<Section, MetaError>, usize))
    requires
        start <= chars@.len(),
    ensures
        ({
            let rest = chars@.skip(start as int);
            let mlen = scan_len(rest, ':') as int;
            let consumed = if mlen < rest.len() {
                mlen + 1
            } else {
                rest.len() as int
            };
            &&& r.1 == start + consumed
            &&& start <= r.1 <= chars@.len()
            &&& r.0 == parse_meta(rest.take(mlen))
        }),
{
    let ghost rest = chars@.skip(start as int);
    let n = chars.len();
    let mut j: usize = start;
    while j < n && chars[j] != ':'
        invariant
            start <= j <= n,
            n == chars@.len(),
            rest == chars@.skip(start as int),
            forall|k: int| start <= k < j ==> chars@[k] != ':',
        decreases n - j,
    {
        j = j + 1;
    }
    proof {
        assert(forall|k: int| 0 <= k < j - start ==> rest[k] == chars@[start + k] && rest[k]
            != ':');
        assert(j - start < rest.len() ==> rest[j - start] == chars@[j as int]);
        lemma_scan_len_at(rest, ':', j - start);
    }
    let next: usize = if j < n {
        j + 1
    } else {
        j
    };
    let ghost meta = rest.take((j - start) as int);
    proof {
        assert(meta =~= chars@.subrange(start as int, j as int));
    }
    // Count the commas of the metadata and remember where the first one is.
    let mut commas: usize = 0;
    let mut comma_at: usize = start;
    let mut p: usize = start;
    while p < j
        invariant
            start <= p <= j <= n,
            n == chars@.len(),
            meta == chars@.subrange(start as int, j as int),
            commas == comma_count(chars@.subrange(start as int, p as int)),
            commas <= p - start,
            commas >= 1 ==> start <= comma_at < p && chars@[comma_at as int] == ',',
            commas >= 1 ==> forall|k: int| start <= k < comma_at ==> chars@[k] != ',',
            commas == 0 ==> forall|k: int| start <= k < p ==> chars@[k] != ',',
        decreases j - p,
    {
        proof {
            assert(chars@.subrange(start as int, p + 1) =~= chars@.subrange(
                start as int,
                p as int,
            ).push(chars@[p as int]));
            lemma_comma_count_push(chars@.subrange(start as int, p as int), chars@[p as int]);
        }
        if chars[p] == ',' {
            if commas == 0 {
                comma_at = p;
            }
            commas = commas + 1;
        }
        p = p + 1;
    }
    if commas != 1 {
        return (Err(MetaError::MalformedMetadata), next);
    }
    proof {
        assert(forall|k: int| 0 <= k < comma_at - start ==> meta[k] == chars@[start + k] && meta[k]
            != ',');
        assert(meta[comma_at - start] == ',');
        lemma_scan_len_at(meta, ',', comma_at - start);
        assert(meta.take((comma_at - start) as int) =~= chars@.subrange(
            start as int,
            comma_at as int,
        ));
        assert(meta.skip(comma_at - start + 1) =~= chars@.subrange(comma_at + 1, j as int));
    }
    let fg = match parse_color(chars, start, comma_at) {
        Ok(fg) => fg,
        Err(e) => {
            return (Err(MetaError::InvalidFg(e)), next);
        },
    };
    let bg = match parse_color(chars, comma_at + 1, j) {
        Ok(bg) => bg,
        Err(e) => {
            return (Err(MetaError::InvalidBg(e)), next);
        },
    };
    (Ok(Section { fg, bg }), next)
}

} // verus!
