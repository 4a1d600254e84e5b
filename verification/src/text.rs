//! Small text routines: character access, decimal numbers, whitespace.

use vstd::prelude::*;
use vstd::string::*;

verus! {

/// `String::push` from std: appends one character.
#[verifier::external_body]
pub(crate) fn push_char(s: &mut String, c: char)
    ensures
        final(s)@ == old(s)@.push(c),
{
    s.push(c);
}

/// The characters of `s`, in order.
pub fn chars_of(s: &str) -> (r: Vec<char>)
    ensures
        r@ == s@,
{
    let mut out: Vec<char> = Vec::new();
    for c in it: s.chars()
        invariant
            out@ == it.seq().take(it.index() as int),
    {
        out.push(c);
    }
    out
}

/// A string holding exactly the characters of `v[from..to]`.
pub fn string_from_chars(v: &Vec<char>, from: usize, to: usize) -> (r: String)
    requires
        from <= to <= v.len(),
    ensures
        r@ == v@.subrange(from as int, to as int),
{
    let mut s = String::new();
    let mut i = from;
    while i < to
        invariant
            from <= i <= to <= v.len(),
            s@ == v@.subrange(from as int, i as int),
        decreases to - i,
    {
        push_char(&mut s, v[i]);
        proof {
            assert(v@.subrange(from as int, i + 1) =~= v@.subrange(from as int, i as int).push(v@[i as int]));
        }
        i += 1;
    }
    s
}

// ---------------------------------------------------------------------------
// Decimal integers
// ---------------------------------------------------------------------------

pub open spec fn is_digit(c: char) -> bool {
    '0' <= c <= '9'
}

pub open spec fn digit_value(c: char) -> nat {
    (c as nat - '0' as nat) as nat
}

pub open spec fn digit_char(d: nat) -> char {
    (d + '0' as nat) as char
}

/// The value of a string of decimal digits.
pub open spec fn digits_value(s: Seq<char>) -> nat
    decreases s.len(),
{
    if s.len() == 0 {
        0
    } else {
        digits_value(s.drop_last()) * 10 + digit_value(s.last())
    }
}

pub open spec fn all_digits(s: Seq<char>) -> bool {
    forall|i: int| 0 <= i < s.len() ==> is_digit(#[trigger] s[i])
}

/// The shortest decimal text of `n`.
pub open spec fn nat_text(n: nat) -> Seq<char>
    decreases n,
{
    if n < 10 {
        seq![digit_char(n)]
    } else {
        nat_text(n / 10).push(digit_char(n % 10))
    }
}

/// Decimal text of an integer, with a leading `-` when negative.
pub open spec fn int_text(n: int) -> Seq<char> {
    if n < 0 {
        seq!['-'] + nat_text((-n) as nat)
    } else {
        nat_text(n as nat)
    }
}

/// What `str::parse` gives for an integer type with range `lo..=hi`: an optional
/// `+` (or `-` when the type is signed) followed by at least one digit, with the
/// value in range.
pub open spec fn parse_int_text(s: Seq<char>, signed: bool, lo: int, hi: int) -> Option<int> {
    if s.len() == 0 {
        None
    } else {
        let neg = signed && s[0] == '-';
        let digits = if s[0] == '+' || neg {
            s.drop_first()
        } else {
            s
        };
        if digits.len() == 0 || !all_digits(digits) {
            None
        } else {
            let v = if neg {
                -(digits_value(digits) as int)
            } else {
                digits_value(digits) as int
            };
            if lo <= v <= hi {
                Some(v)
            } else {
                None
            }
        }
    }
}

proof fn lemma_digits_value_prefix(s: Seq<char>, k: int)
    requires
        0 <= k <= s.len(),
        all_digits(s),
    ensures
        digits_value(s.take(k)) <= digits_value(s),
    decreases s.len() - k,
{
    if k < s.len() {
        lemma_digits_value_prefix(s, k + 1);
        assert(s.take(k + 1).drop_last() =~= s.take(k));
    } else {
        assert(s.take(k) =~= s);
    }
}

/// Parses `s[from..]` as a digit string whose value must not exceed `limit`.
fn parse_digits(s: &Vec<char>, from: usize, limit: u128) -> (r: Option<u128>)
    requires
        from <= s.len(),
        limit <= u64::MAX as u128 + 1,
    ensures
        match r {
            Some(v) => all_digits(s@.skip(from as int)) && v == digits_value(s@.skip(from as int)) && v <= limit,
            None => !all_digits(s@.skip(from as int)) || digits_value(s@.skip(from as int)) > limit,
        },
{
    let ghost d = s@.skip(from as int);
    let mut v: u128 = 0;
    let mut i = from;
    while i < s.len()
        invariant
            from <= i <= s.len(),
            d == s@.skip(from as int),
            limit <= u64::MAX as u128 + 1,
            all_digits(d.take(i - from)),
            v == digits_value(d.take(i - from)),
            v <= limit,
        decreases s.len() - i,
    {
        let c = s[i];
        let ghost k = i - from;
        if !('0' <= c && c <= '9') {
            proof {
                assert(d[k] == c);
            }
            return None;
        }
        let dv = (c as u32 - '0' as u32) as u128;
        proof {
            assert(d.take(k + 1).drop_last() =~= d.take(k));
            assert(d.take(k + 1).last() == c);
        }
        v = v * 10 + dv;
        if v > limit {
            proof {
                if all_digits(d) {
                    lemma_digits_value_prefix(d, k + 1);
                }
            }
            return None;
        }
        i += 1;
    }
    proof {
        assert(d.take(i - from) =~= d);
    }
    Some(v)
}

/// Parses decimal text as `str::parse` does for an integer type with range
/// `lo..=hi`; `signed` tells whether a leading `-` is allowed.
pub fn parse_int(s: &str, signed: bool, lo: i128, hi: i128) -> (r: Option<i128>)
    requires
        -(u64::MAX as int) - 1 <= lo <= 0 <= hi <= u64::MAX,
    ensures
        r matches Some(v) ==> parse_int_text(s@, signed, lo as int, hi as int) == Some(v as int),
        r is None ==> parse_int_text(s@, signed, lo as int, hi as int) is None,
{
    let cs = chars_of(s);
    if cs.len() == 0 {
        return None;
    }
    let neg = signed && cs[0] == '-';
    let from: usize = if cs[0] == '+' || neg {
        1
    } else {
        0
    };
    let ghost digits = cs@.skip(from as int);
    proof {
        if from == 1 {
            assert(digits =~= cs@.drop_first());
        } else {
            assert(digits =~= cs@);
        }
    }
    if from == cs.len() {
        return None;
    }
    let limit: u128 = if neg {
        (-lo) as u128
    } else {
        hi as u128
    };
    match parse_digits(&cs, from, limit) {
        None => None,
        Some(v) => {
            if neg {
                Some(-(v as i128))
            } else {
                Some(v as i128)
            }
        },
    }
}

proof fn lemma_nat_text_digits(n: nat)
    ensures
        all_digits(nat_text(n)),
        digits_value(nat_text(n)) == n,
        nat_text(n).len() >= 1,
        nat_text(n)[0] != '+' && nat_text(n)[0] != '-',
    decreases n,
{
    if n >= 10 {
        lemma_nat_text_digits(n / 10);
        let t = nat_text(n);
        assert(t.drop_last() =~= nat_text(n / 10));
        assert(digit_value(digit_char(n % 10)) == n % 10);
        assert(n == (n / 10) * 10 + n % 10);
    } else {
        assert(digit_value(digit_char(n)) == n);
        assert(nat_text(n).drop_last() =~= Seq::<char>::empty());
        assert(digits_value(Seq::<char>::empty()) == 0);
    }
}

/// Reading back the decimal text of an integer gives the integer: what
/// `str::parse` makes of what `Display` writes, for a type whose range holds it.
pub proof fn law_int_text_round_trip(n: int, signed: bool, lo: int, hi: int)
    requires
        lo <= n <= hi,
        n < 0 ==> signed,
    ensures
        parse_int_text(int_text(n), signed, lo, hi) == Some(n),
{
    if n < 0 {
        lemma_nat_text_digits((-n) as nat);
        let t = int_text(n);
        assert(t[0] == '-');
        assert(t.drop_first() =~= nat_text((-n) as nat));
    } else {
        lemma_nat_text_digits(n as nat);
    }
}

/// The decimal text of an integer has at least one character and no `/`.
pub proof fn lemma_int_text_no_slash(n: int)
    ensures
        int_text(n).len() >= 1,
        !int_text(n).contains('/'),
{
    if n < 0 {
        lemma_nat_text_digits((-n) as nat);
        let t = int_text(n);
        if t.contains('/') {
            let i = choose|i: int| 0 <= i < t.len() && t[i] == '/';
            assert(t[i] == nat_text((-n) as nat)[i - 1]);
        }
    } else {
        lemma_nat_text_digits(n as nat);
        if int_text(n).contains('/') {
            let i = choose|i: int| 0 <= i < int_text(n).len() && int_text(n)[i] == '/';
        }
    }
}

/// Decimal text of `n`, as `Display` writes it.
pub fn format_int(n: i64) -> (s: String)
    ensures
        s@ == int_text(n as int),
{
    let mut mag: u64 = if n < 0 {
        (-(n as i128)) as u64
    } else {
        n as u64
    };
    let ghost m = mag as nat;
    // digits, least significant first
    let mut rev: Vec<char> = Vec::new();
    loop
        invariant_except_break
            nat_text(m) == nat_text(mag as nat) + rev@.reverse(),
            mag == 0 ==> rev@.len() == 0,
        ensures
            nat_text(m) == rev@.reverse(),
        decreases mag,
    {
        let d = (mag % 10) as u32;
        let c = char_from_digit(d);
        let ghost before = rev@;
        let ghost q = (mag / 10) as nat;
        proof {
            if mag >= 10 {
                assert(nat_text(mag as nat) == nat_text(q).push(c));
            } else {
                assert(nat_text(mag as nat) == seq![c]);
            }
        }
        rev.push(c);
        proof {
            assert(rev@.reverse() =~= seq![c] + before.reverse());
        }
        mag = mag / 10;
        if mag == 0 {
            proof {
                assert(seq![c] + before.reverse() =~= rev@.reverse());
            }
            break;
        }
        proof {
            assert(nat_text(q).push(c) + before.reverse() =~= nat_text(q) + rev@.reverse());
        }
    }
    let mut s = String::new();
    if n < 0 {
        push_char(&mut s, '-');
    }
    let len = rev.len();
    let mut i = len;
    while i > 0
        invariant
            i <= len == rev.len(),
            s@ == (if n < 0 { seq!['-'] } else { Seq::empty() }) + rev@.reverse().take(len - i),
        decreases i,
    {
        i -= 1;
        push_char(&mut s, rev[i]);
        proof {
            assert(rev@.reverse().take(len - i) =~= rev@.reverse().take(len - i - 1).push(rev@[i as int]));
        }
    }
    proof {
        assert(rev@.reverse().take(len as int) =~= rev@.reverse());
    }
    s
}

/// The character for a decimal digit.
pub fn char_from_digit(d: u32) -> (c: char)
    requires
        d < 10,
    ensures
        c == digit_char(d as nat),
        is_digit(c),
{
    if d == 0 { '0' } else if d == 1 { '1' } else if d == 2 { '2' } else if d == 3 { '3' } else if d == 4 {
        '4'
    } else if d == 5 { '5' } else if d == 6 { '6' } else if d == 7 { '7' } else if d == 8 { '8' } else { '9' }
}

// ---------------------------------------------------------------------------
// Whitespace
// ---------------------------------------------------------------------------

/// `char::is_whitespace`: the Unicode `White_Space` characters.
pub open spec fn is_whitespace(c: char) -> bool {
    ||| '\t' <= c <= '\r'
    ||| c == ' '
    ||| c == '\u{85}'
    ||| c == '\u{a0}'
    ||| c == '\u{1680}'
    ||| '\u{2000}' <= c <= '\u{200a}'
    ||| c == '\u{2028}'
    ||| c == '\u{2029}'
    ||| c == '\u{202f}'
    ||| c == '\u{205f}'
    ||| c == '\u{3000}'
}

pub fn char_is_whitespace(c: char) -> (b: bool)
    ensures
        b == is_whitespace(c),
{
    ('\t' <= c && c <= '\r') || c == ' ' || c == '\u{85}' || c == '\u{a0}' || c == '\u{1680}' || ('\u{2000}'
        <= c && c <= '\u{200a}') || c == '\u{2028}' || c == '\u{2029}' || c == '\u{202f}' || c == '\u{205f}'
        || c == '\u{3000}'
}

/// `s.trim().is_empty()`: every character of `s` is whitespace.
pub open spec fn is_blank(s: Seq<char>) -> bool {
    forall|i: int| 0 <= i < s.len() ==> is_whitespace(#[trigger] s[i])
}

pub fn str_is_blank(s: &str) -> (b: bool)
    ensures
        b == is_blank(s@),
{
    let cs = chars_of(s);
    let n = cs.len();
    for i in 0..n
        invariant
            n == cs.len(),
            cs@ == s@,
            forall|j: int| 0 <= j < i ==> is_whitespace(#[trigger] s@[j]),
    {
        if !char_is_whitespace(cs[i]) {
            return false;
        }
    }
    true
}

/// Whether the characters of `s` are exactly those of `t`.
pub fn chars_equal(s: &Vec<char>, t: &str) -> (b: bool)
    ensures
        b == (s@ == t@),
{
    let tc = chars_of(t);
    if s.len() != tc.len() {
        return false;
    }
    let n = s.len();
    for i in 0..n
        invariant
            n == s.len() == tc.len(),
            tc@ == t@,
            forall|j: int| 0 <= j < i ==> s@[j] == tc@[j],
    {
        if s[i] != tc[i] {
            return false;
        }
    }
    proof {
        assert(s@ =~= tc@);
    }
    true
}

} // verus!
