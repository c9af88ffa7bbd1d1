//! Text helpers: decimal and hexadecimal numerals, and the conversions
//! between `&str`, character vectors and `String`.

use vstd::prelude::*;

verus! {

/// The character of a digit below sixteen (lower-case for the letters).
pub open spec fn digit_char(d: nat) -> char {
    if d == 0 {
        '0'
    } else if d == 1 {
        '1'
    } else if d == 2 {
        '2'
    } else if d == 3 {
        '3'
    } else if d == 4 {
        '4'
    } else if d == 5 {
        '5'
    } else if d == 6 {
        '6'
    } else if d == 7 {
        '7'
    } else if d == 8 {
        '8'
    } else if d == 9 {
        '9'
    } else if d == 10 {
        'a'
    } else if d == 11 {
        'b'
    } else if d == 12 {
        'c'
    } else if d == 13 {
        'd'
    } else if d == 14 {
        'e'
    } else {
        'f'
    }
}

/// The numeral of `n` in base `b`, most significant digit first, without
/// leading zeros ("0" for zero).
pub open spec fn numeral(n: nat, b: nat) -> Seq<char>
    recommends
        2 <= b <= 16,
    decreases n,
{
    if n < b || b < 2 {
        seq![digit_char(n)]
    } else {
        proof {
            lemma_div_smaller(n, b);
        }
        numeral(n / b, b).push(digit_char(n % b))
    }
}

pub proof fn lemma_div_smaller(n: nat, b: nat)
    requires
        2 <= b <= n,
    ensures
        n / b < n,
{
    assert(n / b < n) by (nonlinear_arith)
        requires
            2 <= b <= n,
    ;
}

/// The decimal numeral of `n`.
pub open spec fn dec_chars(n: nat) -> Seq<char> {
    numeral(n, 10)
}

/// The lower-case hexadecimal numeral of `n`, without prefix.
pub open spec fn hex_chars(n: nat) -> Seq<char> {
    numeral(n, 16)
}

/// The decimal numeral of a signed integer, with a leading `-` when it is
/// negative.
pub open spec fn signed_chars(x: int) -> Seq<char> {
    if x < 0 {
        seq!['-'] + dec_chars((-x) as nat)
    } else {
        dec_chars(x as nat)
    }
}

pub open spec fn is_dec_digit(c: char) -> bool {
    '0' <= c && c <= '9'
}

pub open spec fn all_dec_digits(s: Seq<char>) -> bool {
    forall|i: int| 0 <= i < s.len() ==> is_dec_digit(#[trigger] s[i])
}

/// The value of a string of decimal digits.
pub open spec fn dec_value(s: Seq<char>) -> nat
    decreases s.len(),
{
    if s.len() == 0 {
        0
    } else {
        dec_value(s.drop_last()) * 10 + ((s.last() as int - '0' as int) as nat)
    }
}

/// What `u32::from_str` accepts: an optional `+`, then one or more decimal
/// digits whose value fits in a `u32`.
pub open spec fn spec_parse_u32(s: Seq<char>) -> Option<u32> {
    let d = if s.len() > 0 && s[0] == '+' {
        s.drop_first()
    } else {
        s
    };
    if d.len() > 0 && all_dec_digits(d) && dec_value(d) <= u32::MAX {
        Some(dec_value(d) as u32)
    } else {
        None
    }
}

fn digit(d: u64) -> (c: char)
    requires
        d < 16,
    ensures
        c == digit_char(d as nat),
{
    match d {
        0 => '0',
        1 => '1',
        2 => '2',
        3 => '3',
        4 => '4',
        5 => '5',
        6 => '6',
        7 => '7',
        8 => '8',
        9 => '9',
        10 => 'a',
        11 => 'b',
        12 => 'c',
        13 => 'd',
        14 => 'e',
        _ => 'f',
    }
}

/// Appends the numeral of `n` in base `b`.
fn push_numeral(out: &mut Vec<char>, n: u64, b: u64)
    requires
        2 <= b <= 16,
    ensures
        final(out)@ == old(out)@ + numeral(n as nat, b as nat),
    decreases n,
{
    if n < b {
        out.push(digit(n));
        proof {
            assert(numeral(n as nat, b as nat) == seq![digit_char(n as nat)]);
        }
    } else {
        let ghost o = out@;
        proof {
            lemma_div_smaller(n as nat, b as nat);
        }
        push_numeral(out, n / b, b);
        out.push(digit(n % b));
        proof {
            assert(out@ == o + numeral((n / b) as nat, b as nat).push(digit_char((n % b) as nat)));
        }
    }
}

/// Appends the decimal numeral of `n`.
pub fn push_dec(out: &mut Vec<char>, n: u64)
    ensures
        final(out)@ == old(out)@ + dec_chars(n as nat),
{
    push_numeral(out, n, 10)
}

/// Appends the hexadecimal numeral of `n`.
pub fn push_hex(out: &mut Vec<char>, n: u64)
    ensures
        final(out)@ == old(out)@ + hex_chars(n as nat),
{
    push_numeral(out, n, 16)
}

/// Appends the decimal numeral of a signed `n`.
pub fn push_signed(out: &mut Vec<char>, n: i64)
    ensures
        final(out)@ == old(out)@ + signed_chars(n as int),
{
    if n < 0 {
        let ghost o = out@;
        out.push('-');
        let m: u64 = if n == i64::MIN {
            9223372036854775808u64
        } else {
            (-n) as u64
        };
        push_dec(out, m);
        proof {
            assert(out@ == o + (seq!['-'] + dec_chars((-n) as nat)));
        }
    } else {
        push_dec(out, n as u64);
    }
}

/// Appends the characters of `s`.
pub fn push_str(out: &mut Vec<char>, s: &str)
    ensures
        final(out)@ == old(out)@ + s@,
{
    let ghost o = out@;
    let n = s.unicode_len();
    let mut i: usize = 0;
    while i < n
        invariant
            n == s@.len(),
            i <= n,
            out@ == o + s@.take(i as int),
        decreases n - i,
    {
        let c = s.get_char(i);
        out.push(c);
        proof {
            assert(s@.take(i + 1) == s@.take(i as int).push(c));
        }
        i += 1;
    }
    proof {
        assert(s@.take(n as int) == s@);
    }
}

/// The characters of `s`.
pub fn chars_of(s: &str) -> (r: Vec<char>)
    ensures
        r@ == s@,
{
    let mut r: Vec<char> = Vec::new();
    push_str(&mut r, s);
    proof {
        assert(r@ == Seq::<char>::empty() + s@);
    }
    r
}

/// `String::from_iter` over characters: the string holds `chars`, in order.
#[verifier::external_body]
pub(crate) fn string_of(chars: &Vec<char>) -> (r: String)
    ensures
        r@ == chars@,
{
    chars.iter().collect()
}

/// Parses a `u32` as `u32::from_str` does.
pub fn parse_u32(s: &[char]) -> (r: Option<u32>)
    ensures
        r == spec_parse_u32(s@),
{
    let n = s.len();
    let start: usize = if n > 0 && s[0] == '+' {
        1
    } else {
        0
    };
    let ghost d = if s@.len() > 0 && s@[0] == '+' {
        s@.drop_first()
    } else {
        s@
    };
    proof {
        assert(d == s@.skip(start as int));
    }
    if start == n {
        return None;
    }
    let mut value: u64 = 0;
    let mut i: usize = start;
    while i < n
        invariant
            start <= i <= n,
            start < n,
            n == s@.len(),
            d == s@.skip(start as int),
            d == (if s@.len() > 0 && s@[0] == '+' {
                s@.drop_first()
            } else {
                s@
            }),
            all_dec_digits(d.take(i - start)),
            value == dec_value(d.take(i - start)),
            value <= u32::MAX,
        decreases n - i,
    {
        let c = s[i];
        if !('0' <= c && c <= '9') {
            proof {
                assert(d[i - start] == c);
                assert(!is_dec_digit(d[i - start]));
                assert(!all_dec_digits(d));
            }
            return None;
        }
        let dv: u64 = (c as u32 - '0' as u32) as u64;
        proof {
            let t = d.take(i - start + 1);
            assert(t.drop_last() == d.take(i - start));
            assert(t.last() == c);
            assert(dec_value(t) == dec_value(t.drop_last()) * 10 + ((t.last() as int - '0' as int) as nat));
        }
        value = value * 10 + dv;
        if value > u32::MAX as u64 {
            proof {
                lemma_dec_value_prefix(d, i - start + 1);
                assert(!(all_dec_digits(d) && dec_value(d) <= u32::MAX));
            }
            return None;
        }
        proof {
            let t = d.take(i - start + 1);
            assert forall|k: int| 0 <= k < t.len() implies is_dec_digit(#[trigger] t[k]) by {
                if k < i - start {
                    assert(t[k] == d.take(i - start)[k]);
                }
            }
        }
        i += 1;
    }
    proof {
        assert(d.take(n - start) == d);
    }
    Some(value as u32)
}

/// A string of digits is worth at least any of its prefixes.
proof fn lemma_dec_value_prefix(s: Seq<char>, k: int)
    requires
        0 <= k <= s.len(),
    ensures
        all_dec_digits(s) ==> dec_value(s.take(k)) <= dec_value(s),
    decreases s.len() - k,
{
    if k < s.len() && all_dec_digits(s) {
        lemma_dec_value_prefix(s, k + 1);
        let t = s.take(k + 1);
        assert(t.drop_last() == s.take(k));
        assert(is_dec_digit(s[k]));
        assert(t.last() == s[k]);
    } else if k == s.len() {
        assert(s.take(k) == s);
    }
}

proof fn lemma_digit_value(d: nat)
    requires
        d < 10,
    ensures
        is_dec_digit(digit_char(d)),
        digit_char(d) as int - '0' as int == d,
{
}

/// Numerals are made of digits.
pub proof fn lemma_numeral_digits(n: nat)
    ensures
        all_dec_digits(dec_chars(n)),
        dec_chars(n).len() > 0,
        dec_value(dec_chars(n)) == n,
    decreases n,
{
    if n < 10 {
        lemma_digit_value(n);
        let s = dec_chars(n);
        assert(s.drop_last() == Seq::<char>::empty());
        assert(dec_value(Seq::<char>::empty()) == 0);
        assert(dec_value(s) == dec_value(s.drop_last()) * 10 + ((s.last() as int - '0' as int) as nat));
    } else {
        lemma_digit_value(n % 10);
        lemma_numeral_digits(n / 10);
        let s = dec_chars(n);
        assert(s == dec_chars(n / 10).push(digit_char(n % 10)));
        assert(s.drop_last() == dec_chars(n / 10));
        vstd::arithmetic::div_mod::lemma_fundamental_div_mod(n as int, 10);
        assert(s.last() == digit_char(n % 10));
        assert(dec_value(s) == dec_value(s.drop_last()) * 10 + ((s.last() as int - '0' as int) as nat));
        assert(dec_value(s) == (n / 10) * 10 + n % 10);
        assert forall|i: int| 0 <= i < s.len() implies is_dec_digit(#[trigger] s[i]) by {
            if i < s.len() - 1 {
                assert(s[i] == dec_chars(n / 10)[i]);
            }
        }
    }
}

/// Parsing the decimal numeral of a `u32` gives it back.
pub proof fn lemma_parse_numeral(n: u32)
    ensures
        spec_parse_u32(dec_chars(n as nat)) == Some(n),
{
    lemma_numeral_digits(n as nat);
    let s = dec_chars(n as nat);
    assert(is_dec_digit(s[0]));
}

} // verus!
