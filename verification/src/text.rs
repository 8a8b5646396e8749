use vstd::prelude::*;
use vstd::string::StrSliceExecFns;

verus! {

// ---------------------------------------------------------------------------
// Characters
// ---------------------------------------------------------------------------

pub open spec fn is_digit(c: char) -> bool {
    '0' <= c && c <= '9'
}

pub open spec fn digit_value(c: char) -> nat {
    ((c as int) - ('0' as int)) as nat
}

pub open spec fn all_digits(s: Seq<char>) -> bool {
    forall|i: int| 0 <= i < s.len() ==> is_digit(#[trigger] s[i])
}

/// The number that a string of decimal digits denotes.
pub open spec fn digits_value(s: Seq<char>) -> nat
    decreases s.len(),
{
    if s.len() == 0 {
        0
    } else {
        digits_value(s.drop_last()) * 10 + digit_value(s.last())
    }
}

/// ASCII lower case of a character.
pub open spec fn lower(c: char) -> char {
    if 'A' <= c && c <= 'Z' {
        ((c as int) + 32) as char
    } else {
        c
    }
}

// ---------------------------------------------------------------------------
// Integers, as `str::parse` reads them: an optional sign (`+` for unsigned
// types, `+` or `-` for signed ones) followed by at least one decimal digit,
// with no other character, and a value within the type's range.
// ---------------------------------------------------------------------------

/// The value of `s` read as an unsigned integer no greater than `max`.
pub open spec fn parse_unsigned(s: Seq<char>, max: nat) -> Option<nat> {
    let d = if s.len() > 0 && s[0] == '+' {
        s.drop_first()
    } else {
        s
    };
    if d.len() > 0 && all_digits(d) && digits_value(d) <= max {
        Some(digits_value(d))
    } else {
        None
    }
}

/// The value of `s` read as an `i64`.
pub open spec fn parse_i64(s: Seq<char>) -> Option<int> {
    if s.len() > 0 && s[0] == '-' {
        let d = s.drop_first();
        if d.len() > 0 && all_digits(d) && digits_value(d) <= 0x8000_0000_0000_0000 {
            Some(-(digits_value(d) as int))
        } else {
            None
        }
    } else {
        match parse_unsigned(s, 0x7fff_ffff_ffff_ffff) {
            Some(v) => Some(v as int),
            None => None,
        }
    }
}

proof fn lemma_digits_value_step(s: Seq<char>, i: int)
    requires
        0 <= i < s.len(),
    ensures
        digits_value(s.subrange(0, i + 1)) == digits_value(s.subrange(0, i)) * 10 + digit_value(s[i]),
{
    assert(s.subrange(0, i + 1).drop_last() =~= s.subrange(0, i));
}

proof fn lemma_digits_value_grows(s: Seq<char>, i: int, j: int)
    requires
        0 <= i <= j <= s.len(),
    ensures
        digits_value(s.subrange(0, i)) <= digits_value(s.subrange(0, j)),
    decreases j - i,
{
    if i < j {
        lemma_digits_value_grows(s, i, j - 1);
        lemma_digits_value_step(s, j - 1);
    }
}

/// Reads the decimal digits of `s` from position `start` on; `None` unless they
/// are at least one digit, only digits, and denote a value no greater than `max`.
fn parse_digits_from(s: &str, start: usize, max: u128) -> (r: Option<u128>)
    requires
        start <= s@.len(),
        max <= 0x1_0000_0000_0000_0000,
    ensures
        ({
            let d = s@.subrange(start as int, s@.len() as int);
            match r {
                Some(v) => d.len() > 0 && all_digits(d) && digits_value(d) <= max && v == digits_value(d),
                None => !(d.len() > 0 && all_digits(d) && digits_value(d) <= max),
            }
        }),
{
    let n = s.unicode_len();
    let ghost d = s@.subrange(start as int, s@.len() as int);
    if start >= n {
        return None;
    }
    let mut value: u128 = 0;
    let mut i: usize = start;
    while i < n
        invariant
            start <= i <= n,
            n == s@.len(),
            d == s@.subrange(start as int, s@.len() as int),
            max <= 0x1_0000_0000_0000_0000,
            value <= max,
            all_digits(d.subrange(0, i - start)),
            value == digits_value(d.subrange(0, i - start)),
        decreases n - i,
    {
        let c = s.get_char(i);
        proof {
            assert(d[i - start] == c);
        }
        if !('0' <= c && c <= '9') {
            proof {
                assert(!is_digit(d[i - start]));
            }
            return None;
        }
        let dv = (c as u32 - '0' as u32) as u128;
        proof {
            lemma_digits_value_step(d, i - start);
            assert(d.subrange(0, i - start + 1).drop_last() =~= d.subrange(0, i - start));
            assert(digit_value(c) == dv);
        }
        let next = value * 10 + dv;
        if next > max {
            proof {
                lemma_digits_value_grows(d, i - start + 1, d.len() as int);
                assert(d.subrange(0, d.len() as int) =~= d);
            }
            return None;
        }
        value = next;
        i += 1;
        proof {
            assert forall|k: int| 0 <= k < (i - start) implies is_digit(#[trigger] d.subrange(0, i - start)[k]) by {
                if k < i - start - 1 {
                    assert(d.subrange(0, i - start)[k] == d.subrange(0, i - start - 1)[k]);
                }
            }
        }
    }
    proof {
        assert(d.subrange(0, d.len() as int) =~= d);
    }
    Some(value)
}

/// Reads `s` as an unsigned number no greater than `max`.
fn parse_unsigned_str(s: &str, max: u128) -> (r: Option<u128>)
    requires
        max <= 0x1_0000_0000_0000_0000,
    ensures
        match r {
            Some(v) => parse_unsigned(s@, max as nat) == Some(v as nat),
            None => parse_unsigned(s@, max as nat) is None,
        },
{
    let n = s.unicode_len();
    let start: usize = if n > 0 && s.get_char(0) == '+' {
        1
    } else {
        0
    };
    proof {
        if start == 1 {
            assert(s@.drop_first() =~= s@.subrange(1, s@.len() as int));
        } else {
            assert(s@ =~= s@.subrange(0, s@.len() as int));
        }
    }
    parse_digits_from(s, start, max)
}

/// `str::parse::<usize>`.
pub fn parse_usize(s: &str) -> (r: Option<usize>)
    ensures
        match r {
            Some(v) => parse_unsigned(s@, usize::MAX as nat) == Some(v as nat),
            None => parse_unsigned(s@, usize::MAX as nat) is None,
        },
{
    match parse_unsigned_str(s, usize::MAX as u128) {
        Some(v) => Some(v as usize),
        None => None,
    }
}

/// `str::parse::<u16>`.
pub fn parse_u16(s: &str) -> (r: Option<u16>)
    ensures
        match r {
            Some(v) => parse_unsigned(s@, u16::MAX as nat) == Some(v as nat),
            None => parse_unsigned(s@, u16::MAX as nat) is None,
        },
{
    match parse_unsigned_str(s, u16::MAX as u128) {
        Some(v) => Some(v as u16),
        None => None,
    }
}

/// `str::parse::<u8>`.
pub fn parse_u8(s: &str) -> (r: Option<u8>)
    ensures
        match r {
            Some(v) => parse_unsigned(s@, u8::MAX as nat) == Some(v as nat),
            None => parse_unsigned(s@, u8::MAX as nat) is None,
        },
{
    match parse_unsigned_str(s, u8::MAX as u128) {
        Some(v) => Some(v as u8),
        None => None,
    }
}

/// `str::parse::<i64>`.
pub fn parse_i64_str(s: &str) -> (r: Option<i64>)
    ensures
        match r {
            Some(v) => parse_i64(s@) == Some(v as int),
            None => parse_i64(s@) is None,
        },
{
    let n = s.unicode_len();
    if n > 0 && s.get_char(0) == '-' {
        proof {
            assert(s@.drop_first() =~= s@.subrange(1, s@.len() as int));
        }
        match parse_digits_from(s, 1, 0x8000_0000_0000_0000) {
            Some(v) => {
                if v == 0x8000_0000_0000_0000 {
                    Some(i64::MIN)
                } else {
                    Some(-(v as i64))
                }
            },
            None => None,
        }
    } else {
        match parse_unsigned_str(s, 0x7fff_ffff_ffff_ffff) {
            Some(v) => Some(v as i64),
            None => None,
        }
    }
}

// ---------------------------------------------------------------------------
// Equality of strings
// ---------------------------------------------------------------------------

/// Whether two strings hold the same characters.
pub fn str_eq(a: &str, b: &str) -> (r: bool)
    ensures
        r == (a@ == b@),
{
    let n = a.unicode_len();
    if n != b.unicode_len() {
        return false;
    }
    let mut i: usize = 0;
    while i < n
        invariant
            i <= n,
            n == a@.len(),
            n == b@.len(),
            forall|j: int| 0 <= j < i ==> a@[j] == b@[j],
        decreases n - i,
    {
        if a.get_char(i) != b.get_char(i) {
            return false;
        }
        i += 1;
    }
    assert(a@ =~= b@);
    true
}

// ---------------------------------------------------------------------------
// Floating-point literals, as `str::parse::<f64>` accepts them:
//   Float  ::= Sign? ( 'inf' | 'infinity' | 'nan' | Number )
//   Number ::= ( Digit+ | Digit+ '.' Digit* | Digit* '.' Digit+ ) Exp?
//   Exp    ::= 'e' Sign? Digit+
//   Sign   ::= [+-]
// where letters may be of either case.
// ---------------------------------------------------------------------------

pub open spec fn lower_eq(s: Seq<char>, w: Seq<char>) -> bool {
    s.len() == w.len() && forall|i: int| 0 <= i < s.len() ==> lower(#[trigger] s[i]) == w[i]
}

pub open spec fn is_special_float(t: Seq<char>) -> bool {
    lower_eq(t, seq!['i', 'n', 'f']) || lower_eq(t, seq!['i', 'n', 'f', 'i', 'n', 'i', 't', 'y'])
        || lower_eq(t, seq!['n', 'a', 'n'])
}

pub open spec fn strip_sign(s: Seq<char>) -> Seq<char> {
    if s.len() > 0 && (s[0] == '+' || s[0] == '-') {
        s.drop_first()
    } else {
        s
    }
}

/// Digits with at most one '.', and at least one digit.
pub open spec fn is_mantissa(m: Seq<char>) -> bool {
    &&& forall|i: int| 0 <= i < m.len() ==> is_digit(#[trigger] m[i]) || m[i] == '.'
    &&& forall|i: int, j: int| 0 <= i < m.len() && 0 <= j < m.len() && #[trigger] m[i] == '.' && #[trigger] m[j] == '.' ==> i == j
    &&& exists|i: int| 0 <= i < m.len() && is_digit(#[trigger] m[i])
}

/// Position of the first 'e' or 'E' in `t`, or its length.
pub open spec fn exponent_start(t: Seq<char>) -> int {
    if exists|i: int| 0 <= i < t.len() && lower(#[trigger] t[i]) == 'e' {
        choose|i: int|
            0 <= i < t.len() && lower(#[trigger] t[i]) == 'e' && forall|j: int| 0 <= j < i ==> lower(#[trigger] t[j]) != 'e'
    } else {
        t.len() as int
    }
}

pub open spec fn is_exponent(x: Seq<char>) -> bool {
    x.len() == 0 || (lower(x[0]) == 'e' && strip_sign(x.drop_first()).len() > 0 && all_digits(
        strip_sign(x.drop_first()),
    ))
}

pub open spec fn is_number(t: Seq<char>) -> bool {
    let e = exponent_start(t);
    is_mantissa(t.subrange(0, e)) && is_exponent(t.subrange(e, t.len() as int))
}

/// `s` is text that `str::parse::<f64>` accepts.
pub open spec fn is_float_literal(s: Seq<char>) -> bool {
    is_special_float(strip_sign(s)) || is_number(strip_sign(s))
}

fn lower_exec(c: char) -> (r: char)
    ensures
        r == lower(c),
{
    if 'A' <= c && c <= 'Z' {
        ((c as u8) + 32) as char
    } else {
        c
    }
}

/// Whether the characters of `s` from `start` on spell `w` in either case.
fn spells_from(s: &str, start: usize, w: &[char]) -> (r: bool)
    requires
        start <= s@.len(),
    ensures
        r == lower_eq(s@.subrange(start as int, s@.len() as int), w@),
{
    let n = s.unicode_len();
    let ghost t = s@.subrange(start as int, s@.len() as int);
    if n - start != w.len() {
        return false;
    }
    let mut i: usize = 0;
    while i < w.len()
        invariant
            i <= w@.len(),
            n == s@.len(),
            n - start == w@.len(),
            t == s@.subrange(start as int, s@.len() as int),
            forall|j: int| 0 <= j < i ==> lower(#[trigger] t[j]) == w@[j],
        decreases w@.len() - i,
    {
        if lower_exec(s.get_char(start + i)) != w[i] {
            assert(t[i as int] == s@[start + i]);
            return false;
        }
        assert(t[i as int] == s@[start + i]);
        i += 1;
    }
    true
}

/// Position of the first 'e' or 'E' at or after `start`, or the length of `s`.
fn find_exponent(s: &str, start: usize) -> (e: usize)
    requires
        start <= s@.len(),
    ensures
        start <= e <= s@.len(),
        e - start == exponent_start(s@.subrange(start as int, s@.len() as int)),
{
    let n = s.unicode_len();
    let ghost t = s@.subrange(start as int, s@.len() as int);
    let mut e: usize = start;
    while e < n
        invariant
            start <= e <= n,
            n == s@.len(),
            t == s@.subrange(start as int, s@.len() as int),
            forall|j: int| 0 <= j < e - start ==> lower(#[trigger] t[j]) != 'e',
        decreases n - e,
    {
        let c = lower_exec(s.get_char(e));
        assert(t[e - start] == s@[e as int]);
        if c == 'e' {
            proof {
                let k = (e - start) as int;
                assert(lower(t[k]) == 'e');
                assert(exists|i: int| 0 <= i < t.len() && lower(#[trigger] t[i]) == 'e');
                let c2 = exponent_start(t);
                assert(0 <= c2 < t.len() && lower(t[c2]) == 'e' && forall|j: int| 0 <= j < c2 ==> lower(#[trigger] t[j]) != 'e');
                if c2 < k {
                } else if c2 > k {
                    assert(lower(t[k]) != 'e');
                }
            }
            return e;
        }
        e += 1;
    }
    e
}

/// Whether the characters of `s` in `[start, e)` form a mantissa.
fn check_mantissa(s: &str, start: usize, e: usize) -> (r: bool)
    requires
        start <= e <= s@.len(),
    ensures
        r == is_mantissa(s@.subrange(start as int, e as int)),
{
    let ghost m = s@.subrange(start as int, e as int);
    let mut dots: usize = 0;
    let mut digits: bool = false;
    let mut i: usize = start;
    let ghost mut dot_at: int = -1;
    while i < e
        invariant
            start <= i <= e <= s@.len(),
            m == s@.subrange(start as int, e as int),
            forall|j: int| 0 <= j < i - start ==> is_digit(#[trigger] m[j]) || m[j] == '.',
            dots <= 1,
            dots == 0 ==> forall|j: int| 0 <= j < i - start ==> #[trigger] m[j] != '.',
            dots == 1 ==> 0 <= dot_at < i - start && m[dot_at] == '.' && forall|j: int|
                0 <= j < i - start && #[trigger] m[j] == '.' ==> j == dot_at,
            digits == exists|j: int| 0 <= j < i - start && is_digit(#[trigger] m[j]),
        decreases e - i,
    {
        let c = s.get_char(i);
        assert(m[i - start] == s@[i as int]);
        if c == '.' {
            if dots == 1 {
                assert(m[dot_at] == '.' && m[i - start] == '.');
                return false;
            }
            dots = 1;
            proof {
                dot_at = i - start;
            }
        } else if '0' <= c && c <= '9' {
            digits = true;
        } else {
            assert(!(is_digit(m[i - start]) || m[i - start] == '.'));
            return false;
        }
        i += 1;
    }
    digits
}

/// Whether the characters of `s` from `e` on form an exponent part.
fn check_exponent(s: &str, e: usize) -> (r: bool)
    requires
        e <= s@.len(),
    ensures
        r == is_exponent(s@.subrange(e as int, s@.len() as int)),
{
    let n = s.unicode_len();
    let ghost x = s@.subrange(e as int, s@.len() as int);
    if e == n {
        assert(x.len() == 0);
        return true;
    }
    let first = lower_exec(s.get_char(e));
    assert(x[0] == s@[e as int]);
    if first != 'e' {
        return false;
    }
    let mut p: usize = e + 1;
    if p < n && (s.get_char(p) == '+' || s.get_char(p) == '-') {
        p = p + 1;
    }
    let ghost y = x.drop_first();
    let ghost z = s@.subrange(p as int, s@.len() as int);
    proof {
        assert(y =~= s@.subrange(e + 1, s@.len() as int));
        assert(strip_sign(y) =~= z);
    }
    if p >= n {
        return false;
    }
    let mut q: usize = p;
    while q < n
        invariant
            p <= q <= n,
            n == s@.len(),
            z == s@.subrange(p as int, s@.len() as int),
            strip_sign(y) == z,
            x == s@.subrange(e as int, s@.len() as int),
            y == x.drop_first(),
            x.len() > 0,
            lower(x[0]) == 'e',
            forall|j: int| 0 <= j < q - p ==> is_digit(#[trigger] z[j]),
        decreases n - q,
    {
        let c = s.get_char(q);
        assert(z[q - p] == s@[q as int]);
        if !('0' <= c && c <= '9') {
            assert(!is_digit(z[q - p]));
            assert(!all_digits(z));
            assert(strip_sign(y) == z);
            assert(!is_exponent(x));
            return false;
        }
        q += 1;
    }
    true
}

/// Whether `s` is text that `str::parse::<f64>` accepts.
pub fn is_float_text(s: &str) -> (r: bool)
    ensures
        r == is_float_literal(s@),
{
    let n = s.unicode_len();
    let start: usize = if n > 0 && (s.get_char(0) == '+' || s.get_char(0) == '-') {
        1
    } else {
        0
    };
    let ghost t = s@.subrange(start as int, s@.len() as int);
    proof {
        assert(strip_sign(s@) =~= t);
        assert(['i', 'n', 'f']@ =~= seq!['i', 'n', 'f']);
        assert(['i', 'n', 'f', 'i', 'n', 'i', 't', 'y']@ =~= seq!['i', 'n', 'f', 'i', 'n', 'i', 't', 'y']);
        assert(['n', 'a', 'n']@ =~= seq!['n', 'a', 'n']);
    }
    let special = spells_from(s, start, &['i', 'n', 'f']) || spells_from(
        s,
        start,
        &['i', 'n', 'f', 'i', 'n', 'i', 't', 'y'],
    ) || spells_from(s, start, &['n', 'a', 'n']);
    if special {
        return true;
    }
    let e = find_exponent(s, start);
    proof {
        let k = (e - start) as int;
        assert(t.subrange(0, k) =~= s@.subrange(start as int, e as int));
        assert(t.subrange(k, t.len() as int) =~= s@.subrange(e as int, s@.len() as int));
    }
    check_mantissa(s, start, e) && check_exponent(s, e)
}

// ---------------------------------------------------------------------------
// Building strings
// ---------------------------------------------------------------------------

/// Appends one character: `String::push` of std.
#[verifier::external_body]
pub(crate) fn push_char(s: &mut String, c: char)
    ensures
        final(s)@ == old(s)@.push(c),
{
    s.push(c)
}


} // verus!
