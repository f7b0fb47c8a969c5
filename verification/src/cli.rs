//! Command-line helpers: colour arguments and file names of saved frames.
use vstd::prelude::*;
use vstd::utf8::encode_utf8;

verus! {

// ---------------------------------------------------------------------------
// Hex colours
// ---------------------------------------------------------------------------

/// Value of an ASCII hexadecimal digit (either case).
pub open spec fn hex_value(b: u8) -> Option<int> {
    if 48 <= b <= 57 {
        Some(b - 48)
    } else if 97 <= b <= 102 {
        Some(b - 87)
    } else if 65 <= b <= 70 {
        Some(b - 55)
    } else {
        None
    }
}

/// The hexadecimal digits and their values: `0` to `9` are 0 to 9, `a` to
/// `f` and `A` to `F` are 10 to 15, and no other byte is a digit.
pub proof fn law_hex_digit_values(b: u8)
    ensures
        b >= 48 && b <= 57 ==> hex_value(b) == Some(b - 48),
        b >= 97 && b <= 102 ==> hex_value(b) == Some(b - 97 + 10),
        b >= 65 && b <= 70 ==> hex_value(b) == Some(b - 65 + 10),
        !((b >= 48 && b <= 57) || (b >= 97 && b <= 102) || (b >= 65 && b <= 70)) ==> hex_value(b) is None,
{
}

/// Six decimal digits spell a colour: each pair `d e` gives `16 * d + e`.
pub proof fn law_decimal_digits_are_a_colour(t: Seq<u8>)
    requires
        t.len() == 6,
        forall|i: int| 0 <= i < 6 ==> 48 <= #[trigger] t[i] <= 57,
    ensures
        hex_color(t) == Some(
            (
                (16 * (t[0] - 48) + (t[1] - 48)) as u8,
                (16 * (t[2] - 48) + (t[3] - 48)) as u8,
                (16 * (t[4] - 48) + (t[5] - 48)) as u8,
            ),
        ),
{
    assert(48 <= t[0] <= 57 && 48 <= t[1] <= 57 && 48 <= t[2] <= 57);
    assert(48 <= t[3] <= 57 && 48 <= t[4] <= 57 && 48 <= t[5] <= 57);
}

/// What `u8::from_str_radix` gives in base 16 for the two bytes `a b`: an
/// optional leading `+` and hexadecimal digits.
pub open spec fn hex_pair(a: u8, b: u8) -> Option<int> {
    if a == 43 {
        hex_value(b)
    } else {
        match (hex_value(a), hex_value(b)) {
            (Some(x), Some(y)) => Some(16 * x + y),
            _ => None,
        }
    }
}

/// `s` without its leading `#` bytes.
pub open spec fn strip_hashes(s: Seq<u8>) -> Seq<u8>
    decreases s.len(),
{
    if s.len() > 0 && s[0] == 35 {
        strip_hashes(s.drop_first())
    } else {
        s
    }
}

/// The colour six hexadecimal bytes spell (`rrggbb`, each pair parsed as by
/// `u8::from_str_radix`), if they do.
pub open spec fn hex_color(t: Seq<u8>) -> Option<(u8, u8, u8)> {
    if t.len() != 6 {
        None
    } else {
        match (hex_pair(t[0], t[1]), hex_pair(t[2], t[3]), hex_pair(t[4], t[5])) {
            (Some(r), Some(g), Some(b)) => Some((r as u8, g as u8, b as u8)),
            _ => None,
        }
    }
}

/// Byte `b` continues a multi-byte UTF-8 character.
pub open spec fn is_continuation(b: u8) -> bool {
    0x80 <= b < 0xC0
}

/// The colour text splits into pairs at character boundaries.
pub open spec fn hex_text_splits(bytes: Seq<u8>) -> bool {
    let t = strip_hashes(bytes);
    t.len() == 6 ==> !is_continuation(t[2]) && !is_continuation(t[4])
}

/// Value of the hexadecimal digit byte `b`.
fn hex_digit(b: u8) -> (r: Option<u8>)
    ensures
        match hex_value(b) {
            Some(v) => r == Some(v as u8),
            None => r is None,
        },
{
    if 48 <= b && b <= 57 {
        Some(b - 48)
    } else if 97 <= b && b <= 102 {
        Some(b - 87)
    } else if 65 <= b && b <= 70 {
        Some(b - 55)
    } else {
        None
    }
}

/// The byte a pair of hexadecimal bytes spells (see `hex_pair`).
fn parse_hex_pair(a: u8, b: u8) -> (r: Option<u8>)
    ensures
        match hex_pair(a, b) {
            Some(v) => r == Some(v as u8) && 0 <= v < 256,
            None => r is None,
        },
{
    if a == 43 {
        hex_digit(b)
    } else {
        match (hex_digit(a), hex_digit(b)) {
            (Some(x), Some(y)) => Some(16 * x + y),
            _ => None,
        }
    }
}

/// The opaque colour an `rrggbb` argument (leading `#`s allowed) names, if
/// it names one; `None` without an argument.
pub fn parse_hex_color(hex: &Option<String>) -> (r: Option<[u8; 4]>)
    requires
        hex matches Some(s) ==> hex_text_splits(encode_utf8(s@)),
    ensures
        match hex {
            None => r is None,
            Some(s) => match hex_color(strip_hashes(encode_utf8(s@))) {
                Some(c) => r == Some([c.0, c.1, c.2, 255u8]),
                None => r is None,
            },
        },
{
    match hex {
        None => None,
        Some(s) => {
            let bytes = s.as_str().as_bytes();
            let n: usize = bytes.len();
            let mut start: usize = 0;
            proof {
                assert(bytes@.subrange(0, n as int) =~= bytes@);
            }
            while start < n && bytes[start] == 35
                invariant
                    n == bytes@.len(),
                    start <= n,
                    strip_hashes(bytes@.subrange(start as int, n as int)) == strip_hashes(bytes@),
                decreases n - start,
            {
                assert(bytes@.subrange(start as int, n as int).drop_first() =~= bytes@.subrange(start + 1, n as int));
                start = start + 1;
            }
            let ghost t = bytes@.subrange(start as int, n as int);
            assert(strip_hashes(t) == t);
            if n - start != 6 {
                return None;
            }
            let r = parse_hex_pair(bytes[start], bytes[start + 1]);
            let g = parse_hex_pair(bytes[start + 2], bytes[start + 3]);
            let b = parse_hex_pair(bytes[start + 4], bytes[start + 5]);
            match (r, g, b) {
                (Some(r), Some(g), Some(b)) => Some([r, g, b, 255]),
                _ => None,
            }
        },
    }
}

// ---------------------------------------------------------------------------
// Frame file names
// ---------------------------------------------------------------------------

/// First position at or after `from` where `s` holds `c`.
pub open spec fn find_char(s: Seq<char>, c: char, from: int) -> Option<int>
    decreases s.len() - from,
{
    if from < 0 || from >= s.len() {
        None
    } else if s[from] == c {
        Some(from)
    } else {
        find_char(s, c, from + 1)
    }
}

/// The ASCII digit for `d` (0 to 9).
pub open spec fn digit_char(d: int) -> char {
    (48 + d) as char
}

/// Decimal digits of `n`, most significant first.
pub open spec fn digits_of(n: nat) -> Seq<char>
    decreases n,
{
    if n < 10 {
        seq![digit_char(n as int)]
    } else {
        digits_of(n / 10).push(digit_char((n % 10) as int))
    }
}

/// `v` in decimal, as `{}` formats it.
pub open spec fn decimal(v: int) -> Seq<char> {
    if v < 0 {
        seq!['-'] + digits_of((-v) as nat)
    } else {
        digits_of(v as nat)
    }
}

/// `v` in decimal padded with zeros after the sign to at least `width`
/// characters, as `{:0width$}` formats it.
pub open spec fn zero_padded(v: int, width: int) -> Seq<char> {
    let sign: Seq<char> = if v < 0 {
        seq!['-']
    } else {
        seq![]
    };
    let d = if v < 0 {
        digits_of((-v) as nat)
    } else {
        digits_of(v as nat)
    };
    let pad = if sign.len() + d.len() < width {
        width - sign.len() - d.len()
    } else {
        0
    };
    sign + Seq::new(pad as nat, |i: int| '0') + d
}

/// `s` without its leading `'0'`s.
pub open spec fn trim_zeros(s: Seq<char>) -> Seq<char>
    decreases s.len(),
{
    if s.len() > 0 && s[0] == '0' {
        trim_zeros(s.drop_first())
    } else {
        s
    }
}

/// Whether `c` is an ASCII decimal digit.
pub open spec fn is_digit(c: char) -> bool {
    '0' <= c <= '9'
}

/// Value of the decimal digits `s`.
pub open spec fn digits_value(s: Seq<char>) -> int
    decreases s.len(),
{
    if s.len() == 0 {
        0
    } else {
        10 * digits_value(s.drop_last()) + (s.last() as int - 48)
    }
}

/// `s` without one leading `+`.
pub open spec fn digit_part(s: Seq<char>) -> Seq<char> {
    if s.len() > 0 && s[0] == '+' {
        s.drop_first()
    } else {
        s
    }
}

/// What `str::parse::<usize>` gives for `s`: an optional `+` and at least one
/// decimal digit, of a value that fits.
pub open spec fn parse_usize(s: Seq<char>) -> Option<int> {
    let d = digit_part(s);
    if d.len() > 0 && (forall|i: int| 0 <= i < d.len() ==> #[trigger] is_digit(d[i])) && digits_value(d) <= usize::MAX {
        Some(digits_value(d))
    } else {
        None
    }
}

/// `s` with every occurrence of `pat` replaced by `rep`, scanning left to
/// right without overlaps, as `str::replace` does.
pub open spec fn replace_all(s: Seq<char>, pat: Seq<char>, rep: Seq<char>) -> Seq<char>
    decreases s.len(),
{
    if s.len() == 0 || pat.len() == 0 {
        s
    } else if pat.len() <= s.len() && s.subrange(0, pat.len() as int) == pat {
        rep + replace_all(s.subrange(pat.len() as int, s.len() as int), pat, rep)
    } else {
        seq![s[0]] + replace_all(s.drop_first(), pat, rep)
    }
}

/// The file name for frame `frame` from a printf-like `pattern`: the first
/// `%` up to the next `d` is a conversion; when it holds a `0`, the number
/// after its leading zeros is the width (1 when it is not a number) and the
/// frame is zero-padded to it, otherwise the frame is written plainly. Every
/// occurrence of that conversion is replaced. Without one the pattern is
/// kept.
pub open spec fn frame_path(pattern: Seq<char>, frame: int) -> Seq<char> {
    match find_char(pattern, '%', 0) {
        None => pattern,
        Some(start) => match find_char(pattern, 'd', start) {
            None => pattern,
            Some(dpos) => {
                let spec = pattern.subrange(start, dpos + 1);
                let formatted = if spec.contains('0') {
                    zero_padded(
                        frame,
                        match parse_usize(trim_zeros(pattern.subrange(start + 1, dpos))) {
                            Some(w) => w,
                            None => 1,
                        },
                    )
                } else {
                    decimal(frame)
                };
                replace_all(pattern, spec, formatted)
            },
        },
    }
}

/// The characters of `s`.
fn chars_of(s: &str) -> (v: Vec<char>)
    ensures
        v@ == s@,
{
    let mut v: Vec<char> = Vec::new();
    for c in it: s.chars()
        invariant
            v@ == it.seq().take(it.index() as int),
            it.seq() == s@,
    {
        v.push(c);
    }
    v
}

/// `String::from_iter` over characters: the string of exactly those
/// characters.
#[verifier::external_body]
pub(crate) fn string_from_chars(chars: &Vec<char>) -> (s: String)
    ensures
        s@ == chars@,
{
    chars.iter().collect()
}

/// First position at or after `from` where `s` holds `c`.
fn find_from(s: &Vec<char>, c: char, from: usize) -> (r: Option<usize>)
    requires
        from <= s@.len(),
    ensures
        match find_char(s@, c, from as int) {
            Some(i) => r == Some(i as usize),
            None => r is None,
        },
{
    let mut i: usize = from;
    while i < s.len()
        invariant
            from <= i <= s@.len(),
            find_char(s@, c, i as int) == find_char(s@, c, from as int),
        decreases s@.len() - i,
    {
        if s[i] == c {
            return Some(i);
        }
        i = i + 1;
    }
    None
}

/// The ASCII digit for `d`.
fn digit(d: u64) -> (c: char)
    requires
        d < 10,
    ensures
        c == digit_char(d as int),
{
    ((48 + d) as u8) as char
}

/// Appends the decimal digits of `n`.
pub(crate) fn push_digits(out: &mut Vec<char>, n: u64)
    ensures
        final(out)@ == old(out)@ + digits_of(n as nat),
    decreases n,
{
    if n >= 10 {
        push_digits(out, n / 10);
    }
    out.push(digit(n % 10));
    proof {
        if n >= 10 {
            assert(digits_of(n as nat) == digits_of((n / 10) as nat).push(digit_char((n % 10) as int)));
        }
    }
}

/// `frame` in decimal, zero-padded to `width` when given.
pub(crate) fn format_number(frame: i32, width: Option<usize>) -> (r: Vec<char>)
    ensures
        r@ == match width {
            Some(w) => zero_padded(frame as int, w as int),
            None => decimal(frame as int),
        },
{
    let v: i64 = frame as i64;
    let mut digits: Vec<char> = Vec::new();
    let magnitude: u64 = if v < 0 {
        (-v) as u64
    } else {
        v as u64
    };
    push_digits(&mut digits, magnitude);
    let mut out: Vec<char> = Vec::new();
    if v < 0 {
        out.push('-');
    }
    let ghost sign = out@;
    if let Some(w) = width {
        let sign_len: usize = out.len();
        if digits.len() < w && sign_len < w - digits.len() {
            let used: usize = sign_len + digits.len();
            let mut k: usize = 0;
            while k < w - used
                invariant
                    k <= w - used,
                    out@ == sign + Seq::new(k as nat, |i: int| '0'),
                decreases w - used - k,
            {
                out.push('0');
                proof {
                    assert(out@ =~= sign + Seq::new((k + 1) as nat, |i: int| '0'));
                }
                k = k + 1;
            }
        } else {
            assert(out@ =~= sign + Seq::new(0, |i: int| '0'));
        }
    }
    let ghost before = out@;
    let mut j: usize = 0;
    while j < digits.len()
        invariant
            j <= digits@.len(),
            out@ == before + digits@.take(j as int),
        decreases digits@.len() - j,
    {
        out.push(digits[j]);
        proof {
            assert(digits@.take(j + 1) =~= digits@.take(j as int).push(digits@[j as int]));
        }
        j = j + 1;
    }
    proof {
        assert(digits@.take(digits@.len() as int) =~= digits@);
        match width {
            Some(w) => {
                assert(out@ =~= zero_padded(frame as int, w as int));
            },
            None => {
                assert(out@ =~= decimal(frame as int));
            },
        }
    }
    out
}

/// The width in a conversion's characters `t` (see `frame_path`).
fn parse_width(t: &Vec<char>) -> (r: Option<usize>)
    ensures
        match parse_usize(t@) {
            Some(w) => r matches Some(v) && v as int == w,
            None => r is None,
        },
{
    let n: usize = t.len();
    let mut i: usize = if n > 0 && t[0] == '+' {
        1
    } else {
        0
    };
    let ghost d = t@.subrange(i as int, n as int);
    proof {
        if n > 0 && t@[0] == '+' {
            assert(d =~= t@.drop_first());
        } else {
            assert(d =~= t@);
        }
    }
    if i == n {
        return None;
    }
    let start: usize = i;
    let mut value: usize = 0;
    while i < n
        invariant
            start <= i <= n,
            n == t@.len(),
            start < n,
            d == t@.subrange(start as int, n as int),
            d == digit_part(t@),
            forall|k: int| start <= k < i ==> #[trigger] is_digit(t@[k]),
            value == digits_value(t@.subrange(start as int, i as int)),
        decreases n - i,
    {
        let c: char = t[i];
        if !('0' <= c && c <= '9') {
            proof {
                assert(d[i - start] == c);
                lemma_parse_usize_bad_digit(t@, d, i - start);
            }
            return None;
        }
        let dv: usize = (c as u32 - 48) as usize;
        assert(t@.subrange(start as int, i + 1).drop_last() =~= t@.subrange(start as int, i as int));
        assert(d.subrange(0, i + 1 - start) =~= t@.subrange(start as int, i + 1));
        assert(digits_value(t@.subrange(start as int, i + 1)) == 10 * value + dv);
        let fits: bool = match value.checked_mul(10) {
            Some(m) => match m.checked_add(dv) {
                Some(nv) => {
                    value = nv;
                    true
                },
                None => false,
            },
            None => false,
        };
        if !fits {
            proof {
                if forall|q: int| 0 <= q < d.len() ==> #[trigger] is_digit(d[q]) {
                    lemma_digits_value_grows(d, i + 1 - start);
                    lemma_parse_usize_too_big(t@, d);
                } else {
                    let q = choose|q: int| 0 <= q < d.len() && !#[trigger] is_digit(d[q]);
                    lemma_parse_usize_bad_digit(t@, d, q);
                }
            }
            return None;
        }
        i = i + 1;
    }
    assert(t@.subrange(start as int, n as int) =~= d);
    Some(value)
}

/// `parse_usize` fails on text whose digit part holds a non-digit.
proof fn lemma_parse_usize_bad_digit(s: Seq<char>, d: Seq<char>, q: int)
    requires
        d == digit_part(s),
        0 <= q < d.len(),
        !is_digit(d[q]),
    ensures
        parse_usize(s) is None,
{
}

/// `parse_usize` fails on digits whose value does not fit.
proof fn lemma_parse_usize_too_big(s: Seq<char>, d: Seq<char>)
    requires
        d == digit_part(s),
        digits_value(d) > usize::MAX,
    ensures
        parse_usize(s) is None,
{
}

/// Decimal digits have a non-negative value.
proof fn lemma_digits_nonneg(d: Seq<char>)
    requires
        forall|i: int| 0 <= i < d.len() ==> #[trigger] is_digit(d[i]),
    ensures
        digits_value(d) >= 0,
    decreases d.len(),
{
    if d.len() > 0 {
        assert(is_digit(d[d.len() - 1]));
        lemma_digits_nonneg(d.drop_last());
    }
}

/// A longer prefix of decimal digits never has a smaller value.
proof fn lemma_digits_value_grows(d: Seq<char>, k: int)
    requires
        0 <= k <= d.len(),
        forall|i: int| 0 <= i < d.len() ==> #[trigger] is_digit(d[i]),
    ensures
        digits_value(d.subrange(0, k)) <= digits_value(d),
    decreases d.len(),
{
    if k == d.len() {
        assert(d.subrange(0, k) =~= d);
    } else {
        lemma_digits_value_grows(d.drop_last(), k);
        assert(d.drop_last().subrange(0, k) =~= d.subrange(0, k));
        lemma_digits_nonneg(d.drop_last());
        assert(is_digit(d[d.len() - 1]));
    }
}

/// Whether `pat` occurs in `s` at position `i`.
fn matches_at(s: &Vec<char>, pat: &Vec<char>, i: usize) -> (r: bool)
    requires
        i <= s@.len(),
    ensures
        r == (pat@.len() <= s@.len() - i && s@.subrange(i as int, i + pat@.len()) == pat@),
{
    let n: usize = s.len();
    let m: usize = pat.len();
    if m > n - i {
        return false;
    }
    let mut k: usize = 0;
    while k < m
        invariant
            n == s@.len(),
            m == pat@.len(),
            i + m <= n,
            k <= m,
            forall|q: int| 0 <= q < k ==> s@[i + q] == pat@[q],
        decreases m - k,
    {
        if s[i + k] != pat[k] {
            assert(s@.subrange(i as int, i + m)[k as int] != pat@[k as int]);
            return false;
        }
        k = k + 1;
    }
    assert(s@.subrange(i as int, i + m) =~= pat@);
    true
}

/// Appends the characters of `extra`.
fn push_all(out: &mut Vec<char>, extra: &Vec<char>)
    ensures
        final(out)@ == old(out)@ + extra@,
{
    let ghost base = out@;
    let mut j: usize = 0;
    while j < extra.len()
        invariant
            j <= extra@.len(),
            out@ == base + extra@.take(j as int),
        decreases extra@.len() - j,
    {
        out.push(extra[j]);
        proof {
            assert(extra@.take(j + 1) =~= extra@.take(j as int).push(extra@[j as int]));
        }
        j = j + 1;
    }
    assert(extra@.take(extra@.len() as int) =~= extra@);
}

/// Replaces every occurrence of `pat` (not empty) in `s` by `rep` (see
/// `replace_all`).
fn replace_chars(s: &Vec<char>, pat: &Vec<char>, rep: &Vec<char>) -> (r: Vec<char>)
    requires
        pat@.len() > 0,
    ensures
        r@ == replace_all(s@, pat@, rep@),
{
    let n: usize = s.len();
    let m: usize = pat.len();
    let mut out: Vec<char> = Vec::new();
    let mut i: usize = 0;
    assert(s@.subrange(0, n as int) =~= s@);
    while i < n
        invariant
            n == s@.len(),
            m == pat@.len(),
            m > 0,
            i <= n,
            out@ + replace_all(s@.subrange(i as int, n as int), pat@, rep@) == replace_all(s@, pat@, rep@),
        decreases n - i,
    {
        let ghost rest = s@.subrange(i as int, n as int);
        if matches_at(s, pat, i) {
            proof {
                assert(rest.subrange(0, m as int) =~= s@.subrange(i as int, i + m));
                assert(rest.subrange(m as int, rest.len() as int) =~= s@.subrange(i + m, n as int));
                assert(out@ + rep@ + replace_all(s@.subrange(i + m, n as int), pat@, rep@) =~= out@ + replace_all(
                    rest,
                    pat@,
                    rep@,
                ));
            }
            push_all(&mut out, rep);
            i = i + m;
        } else {
            proof {
                if m <= rest.len() {
                    assert(rest.subrange(0, m as int) =~= s@.subrange(i as int, i + m));
                }
                assert(rest.drop_first() =~= s@.subrange(i + 1, n as int));
                assert(out@.push(s@[i as int]) + replace_all(s@.subrange(i + 1, n as int), pat@, rep@) =~= out@
                    + replace_all(rest, pat@, rep@));
            }
            out.push(s[i]);
            i = i + 1;
        }
    }
    assert(out@ + replace_all(s@.subrange(n as int, n as int), pat@, rep@) =~= out@);
    out
}

/// The file name for frame `frame` from a printf-like `pattern` (see
/// `frame_path`), such as `frame_%06d.jpg`.
pub fn format_frame_path(pattern: &str, frame: i32) -> (r: String)
    ensures
        r@ == frame_path(pattern@, frame as int),
{
    let chars = chars_of(pattern);
    let start: usize = match find_from(&chars, '%', 0) {
        Some(p) => p,
        None => {
            return string_from_chars(&chars);
        },
    };
    proof {
        lemma_find_char_found(chars@, '%', 0);
    }
    let dpos: usize = match find_from(&chars, 'd', start) {
        Some(p) => p,
        None => {
            assert(frame_path(pattern@, frame as int) == pattern@);
            return string_from_chars(&chars);
        },
    };
    let _len: usize = chars.len();
    proof {
        lemma_find_char_found(chars@, 'd', start as int);
    }
    let mut spec: Vec<char> = Vec::new();
    let mut k: usize = start;
    let mut has_zero: bool = false;
    while k <= dpos
        invariant
            start <= dpos < chars@.len(),
            chars@.len() <= usize::MAX,
            start <= k <= dpos + 1,
            spec@ == chars@.subrange(start as int, k as int),
            has_zero == spec@.contains('0'),
        decreases dpos + 1 - k,
    {
        let c: char = chars[k];
        proof {
            assert(spec@.push(c) =~= chars@.subrange(start as int, k + 1));
            if spec@.push(c).contains('0') && c != '0' {
                let q = choose|q: int| 0 <= q < spec@.push(c).len() && spec@.push(c)[q] == '0';
                assert(spec@[q] == '0');
            }
            if c == '0' {
                assert(spec@.push(c)[spec@.len() as int] == '0');
            }
        }
        if c == '0' {
            has_zero = true;
        }
        spec.push(c);
        k = k + 1;
    }
    let formatted: Vec<char> = if has_zero {
        let mut t: Vec<char> = Vec::new();
        let mut j: usize = start + 1;
        while j < dpos && chars[j] == '0'
            invariant
                start + 1 <= j <= dpos,
                dpos < chars@.len(),
                trim_zeros(chars@.subrange(j as int, dpos as int)) == trim_zeros(chars@.subrange(start + 1, dpos as int)),
            decreases dpos - j,
        {
            assert(chars@.subrange(j as int, dpos as int).drop_first() =~= chars@.subrange(j + 1, dpos as int));
            j = j + 1;
        }
        let ghost trimmed = chars@.subrange(j as int, dpos as int);
        assert(trim_zeros(trimmed) == trimmed);
        while j < dpos
            invariant
                j <= dpos < chars@.len(),
                t@ + chars@.subrange(j as int, dpos as int) == trimmed,
            decreases dpos - j,
        {
            assert(t@.push(chars@[j as int]) + chars@.subrange(j + 1, dpos as int) =~= t@ + chars@.subrange(
                j as int,
                dpos as int,
            ));
            t.push(chars[j]);
            j = j + 1;
        }
        assert(t@ =~= trimmed);
        let width: usize = match parse_width(&t) {
            Some(w) => w,
            None => 1,
        };
        format_number(frame, Some(width))
    } else {
        format_number(frame, None)
    };
    let replaced = replace_chars(&chars, &spec, &formatted);
    proof {
        assert(find_char(pattern@, '%', 0) == Some(start as int));
        assert(find_char(pattern@, 'd', start as int) == Some(dpos as int));
        assert(spec@ == pattern@.subrange(start as int, dpos + 1));
        let fmt = if spec@.contains('0') {
            zero_padded(
                frame as int,
                match parse_usize(trim_zeros(pattern@.subrange(start + 1, dpos as int))) {
                    Some(w) => w,
                    None => 1,
                },
            )
        } else {
            decimal(frame as int)
        };
        assert(formatted@ == fmt);
        assert(replaced@ == replace_all(pattern@, spec@, fmt));
    }
    string_from_chars(&replaced)
}

/// A position that `find_char` returns holds the character.
proof fn lemma_find_char_found(s: Seq<char>, c: char, from: int)
    ensures
        find_char(s, c, from) matches Some(i) ==> from <= i < s.len() && s[i] == c,
    decreases s.len() - from,
{
    if 0 <= from < s.len() && s[from] != c {
        lemma_find_char_found(s, c, from + 1);
    }
}

} // verus!

verus! {

// ---------------------------------------------------------------------------
// Input layers
// ---------------------------------------------------------------------------

/// An argument that starts with `+`, given while some layer exists, shares
/// the previous argument's layer.
pub open spec fn shares_layer(arg: Seq<char>, next_layer: int) -> bool {
    arg.len() > 0 && arg[0] == '+' && next_layer > 1
}

/// The layer a new input would take after the first `k` arguments: layers
/// count up from 1, one per argument that does not share a layer.
pub open spec fn next_layer(args: Seq<String>, k: nat) -> int
    decreases k,
{
    if k == 0 {
        1
    } else {
        let prev = next_layer(args, (k - 1) as nat);
        if shares_layer(args[k - 1]@, prev) {
            prev
        } else {
            prev + 1
        }
    }
}

/// The layer of argument `k`.
pub open spec fn layer_of(args: Seq<String>, k: nat) -> int {
    let next = next_layer(args, k);
    if shares_layer(args[k as int]@, next) {
        next - 1
    } else {
        next
    }
}

/// The path of argument `k`: the argument without the `+` that made it
/// share a layer.
pub open spec fn layer_path(args: Seq<String>, k: nat) -> Seq<char> {
    if shares_layer(args[k as int]@, next_layer(args, k)) {
        args[k as int]@.drop_first()
    } else {
        args[k as int]@
    }
}

/// The path and layer of each input argument (see `layer_of` and
/// `layer_path`): `a.png b.png +c.png` puts `a.png` on layer 1 and `b.png`
/// and `c.png` on layer 2.
pub fn assign_layers(args: &Vec<String>) -> (r: Vec<(String, u8)>)
    requires
        forall|k: nat| k < args@.len() ==> #[trigger] layer_of(args@, k) < 255,
    ensures
        r@.len() == args@.len(),
        forall|k: int|
            0 <= k < args@.len() ==> (#[trigger] r@[k]).0@ == layer_path(args@, k as nat) && r@[k].1
                == layer_of(args@, k as nat),
{
    let mut out: Vec<(String, u8)> = Vec::new();
    let mut layer: u8 = 1;
    let mut i: usize = 0;
    while i < args.len()
        invariant
            i <= args@.len(),
            out@.len() == i,
            layer == next_layer(args@, i as nat),
            forall|k: nat| k < args@.len() ==> #[trigger] layer_of(args@, k) < 255,
            forall|k: int|
                0 <= k < i ==> (#[trigger] out@[k]).0@ == layer_path(args@, k as nat) && out@[k].1 == layer_of(
                    args@,
                    k as nat,
                ),
        decreases args@.len() - i,
    {
        let chars = chars_of(args[i].as_str());
        let shared: bool = chars.len() > 0 && chars[0] == '+' && layer > 1;
        assert(shared == shares_layer(args@[i as int]@, next_layer(args@, i as nat)));
        assert(layer_of(args@, i as nat) < 255);
        let path: String = if shared {
            let mut tail: Vec<char> = Vec::new();
            let mut j: usize = 1;
            while j < chars.len()
                invariant
                    1 <= j <= chars@.len(),
                    tail@ == chars@.subrange(1, j as int),
                decreases chars@.len() - j,
            {
                tail.push(chars[j]);
                j = j + 1;
            }
            assert(tail@ =~= chars@.drop_first());
            string_from_chars(&tail)
        } else {
            string_from_chars(&chars)
        };
        let here: u8 = if shared {
            layer - 1
        } else {
            layer
        };
        out.push((path, here));
        layer = here + 1;
        i = i + 1;
    }
    out
}

} // verus!
