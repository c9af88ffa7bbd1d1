//! The formats of recorded traces.
//!
//! A JSON trace holds one event record per line, between a line `[` and a
//! line `]`. A protobuf trace holds events prefixed by their length, written
//! as a variable-length integer (seven bits per byte, low bits first, the
//! high bit set on every byte but the last).

use crate::text::chars_of;
use vstd::prelude::*;

verus! {

/// What `char::is_whitespace` accepts: the characters with the Unicode
/// White_Space property.
pub open spec fn is_whitespace(c: char) -> bool {
    ||| '\t' <= c && c <= '\r'
    ||| c == ' '
    ||| c == '\u{85}'
    ||| c == '\u{A0}'
    ||| c == '\u{1680}'
    ||| '\u{2000}' <= c && c <= '\u{200A}'
    ||| c == '\u{2028}'
    ||| c == '\u{2029}'
    ||| c == '\u{202F}'
    ||| c == '\u{205F}'
    ||| c == '\u{3000}'
}

fn whitespace(c: char) -> (r: bool)
    ensures
        r == is_whitespace(c),
{
    ('\t' <= c && c <= '\r') || c == ' ' || c == '\u{85}' || c == '\u{A0}' || c == '\u{1680}' || (
    '\u{2000}' <= c && c <= '\u{200A}') || c == '\u{2028}' || c == '\u{2029}' || c == '\u{202F}'
        || c == '\u{205F}' || c == '\u{3000}'
}

/// Number of leading whitespace characters.
pub open spec fn lead(s: Seq<char>) -> nat
    decreases s.len(),
{
    if s.len() > 0 && is_whitespace(s[0]) {
        1 + lead(s.drop_first())
    } else {
        0
    }
}

/// Number of trailing whitespace characters.
pub open spec fn trail(s: Seq<char>) -> nat
    decreases s.len(),
{
    if s.len() > 0 && is_whitespace(s.last()) {
        1 + trail(s.drop_last())
    } else {
        0
    }
}

/// What `str::trim` gives: `s` without its leading and trailing whitespace.
pub open spec fn spec_trim(s: Seq<char>) -> Seq<char> {
    if lead(s) >= s.len() {
        Seq::empty()
    } else {
        s.subrange(lead(s) as int, s.len() - trail(s))
    }
}

proof fn lemma_lead(s: Seq<char>, i: int)
    requires
        0 <= i <= s.len(),
        forall|j: int| 0 <= j < i ==> is_whitespace(#[trigger] s[j]),
    ensures
        lead(s) == i + lead(s.skip(i)),
    decreases i,
{
    if i > 0 {
        assert(s.skip(1) =~= s.drop_first());
        lemma_lead(s.drop_first(), i - 1);
        assert(s.drop_first().skip(i - 1) =~= s.skip(i));
    } else {
        assert(s.skip(0) =~= s);
    }
}

proof fn lemma_trail(s: Seq<char>, i: int)
    requires
        0 <= i <= s.len(),
        forall|j: int| s.len() - i <= j < s.len() ==> is_whitespace(#[trigger] s[j]),
    ensures
        trail(s) == i + trail(s.take(s.len() - i)),
    decreases i,
{
    if i > 0 {
        lemma_trail(s.drop_last(), i - 1);
        assert(s.drop_last().take(s.drop_last().len() - (i - 1)) =~= s.take(s.len() - i));
    } else {
        assert(s.take(s.len() as int) =~= s);
    }
}

proof fn lemma_lead_bound(s: Seq<char>)
    ensures
        lead(s) <= s.len(),
        lead(s) < s.len() ==> !is_whitespace(s[lead(s) as int]),
    decreases s.len(),
{
    if s.len() > 0 && is_whitespace(s[0]) {
        lemma_lead_bound(s.drop_first());
    }
}

proof fn lemma_trail_bound(s: Seq<char>)
    ensures
        trail(s) <= s.len(),
        trail(s) < s.len() ==> !is_whitespace(s[s.len() - 1 - trail(s)]),
    decreases s.len(),
{
    if s.len() > 0 && is_whitespace(s.last()) {
        lemma_trail_bound(s.drop_last());
    }
}

/// `s` trimmed as `str::trim` does.
pub fn trim(s: &str) -> (r: Vec<char>)
    ensures
        r@ == spec_trim(s@),
{
    let cs = chars_of(s);
    let n = cs.len();
    let mut a: usize = 0;
    while a < n && whitespace(cs[a])
        invariant
            cs@ == s@,
            n == cs@.len(),
            0 <= a <= n,
            forall|j: int| 0 <= j < a ==> is_whitespace(#[trigger] cs@[j]),
        decreases n - a,
    {
        a += 1;
    }
    proof {
        lemma_lead(cs@, a as int);
        if a < n {
            assert(cs@.skip(a as int)[0] == cs@[a as int]);
        } else {
            assert(cs@.skip(a as int).len() == 0);
        }
    }
    let mut r: Vec<char> = Vec::new();
    if a == n {
        return r;
    }
    let mut b: usize = n;
    while b > a && whitespace(cs[b - 1])
        invariant
            cs@ == s@,
            n == cs@.len(),
            a < n,
            !is_whitespace(cs@[a as int]),
            a <= b <= n,
            forall|j: int| b <= j < n ==> is_whitespace(#[trigger] cs@[j]),
        decreases b,
    {
        b -= 1;
    }
    proof {
        lemma_trail(cs@, n - b);
        let t = cs@.take(b as int);
        assert(t.len() > 0 && t.last() == cs@[b - 1]);
        assert(b > a);
    }
    let mut i = a;
    while i < b
        invariant
            a <= i <= b <= n,
            n == cs@.len(),
            r@ == cs@.subrange(a as int, i as int),
        decreases b - i,
    {
        r.push(cs[i]);
        proof {
            assert(cs@.subrange(a as int, i + 1) =~= cs@.subrange(a as int, i as int).push(cs@[i as int]));
        }
        i += 1;
    }
    r
}

/// The line opening a JSON trace: `[`, trimmed.
pub fn is_start_line(line: &str) -> (r: bool)
    ensures
        r == (spec_trim(line@) == seq!['[']),
{
    let t = trim(line);
    let r = t.len() == 1 && t[0] == '[';
    proof {
        if r {
            assert(t@ =~= seq!['[']);
        }
    }
    r
}

/// The line closing a JSON trace: `]`, trimmed.
pub fn is_end_line(line: &str) -> (r: bool)
    ensures
        r == (spec_trim(line@) == seq![']']),
{
    let t = trim(line);
    let r = t.len() == 1 && t[0] == ']';
    proof {
        if r {
            assert(t@ =~= seq![']']);
        }
    }
    r
}

/// Why a line holds no event record.
#[derive(PartialEq, Eq, Clone, Copy, Debug, Structural)]
pub enum RecordError {
    /// No `{` opens a record.
    NoStart,
    /// No `}` closes a record.
    NoEnd,
}

/// Position of the first `c` of `s` at or after `i`.
pub open spec fn first_from(s: Seq<char>, c: char, i: int) -> Option<int>
    decreases s.len() - i,
{
    if i < 0 || i >= s.len() {
        None
    } else if s[i] == c {
        Some(i)
    } else {
        first_from(s, c, i + 1)
    }
}

/// Position of the last `c` of `s` before `i`.
pub open spec fn last_before(s: Seq<char>, c: char, i: int) -> Option<int>
    decreases i,
{
    if i <= 0 || i > s.len() {
        None
    } else if s[i - 1] == c {
        Some(i - 1)
    } else {
        last_before(s, c, i - 1)
    }
}

/// The event record of a line: from its first `{` to its last `}`.
pub open spec fn spec_record(line: Seq<char>) -> Result<Seq<char>, RecordError> {
    match first_from(line, '{', 0) {
        None => Err(RecordError::NoStart),
        Some(a) => match last_before(line, '}', line.len() as int) {
            None => Err(RecordError::NoEnd),
            Some(b) => Ok(line.subrange(a, b + 1)),
        },
    }
}

/// The lines whose record can be cut out: the first `{` comes at most one
/// character after the last `}`.
pub open spec fn record_cuttable(line: Seq<char>) -> bool {
    first_from(line, '{', 0) matches Some(a) ==> (last_before(line, '}', line.len() as int) matches Some(
        b,
    ) ==> a <= b + 1)
}

/// The event record of a line, as the text between its first `{` and its
/// last `}`, both included.
pub fn record_of(line: &str) -> (r: Result<Vec<char>, RecordError>)
    requires
        record_cuttable(line@),
    ensures
        match spec_record(line@) {
            Ok(s) => r matches Ok(v) && v@ == s,
            Err(e) => r == Err::<Vec<char>, RecordError>(e),
        },
{
    let cs = chars_of(line);
    let n = cs.len();
    let mut a: usize = 0;
    while a < n && cs[a] != '{'
        invariant
            cs@ == line@,
            n == cs@.len(),
            0 <= a <= n,
            first_from(cs@, '{', 0) == first_from(cs@, '{', a as int),
        decreases n - a,
    {
        a += 1;
    }
    if a == n {
        return Err(RecordError::NoStart);
    }
    let mut b: usize = n;
    while b > 0 && cs[b - 1] != '}'
        invariant
            cs@ == line@,
            n == cs@.len(),
            0 <= b <= n,
            last_before(cs@, '}', n as int) == last_before(cs@, '}', b as int),
        decreases b,
    {
        b -= 1;
    }
    if b == 0 {
        return Err(RecordError::NoEnd);
    }
    let mut r: Vec<char> = Vec::new();
    let mut i = a;
    while i < b
        invariant
            a <= i <= b <= n,
            n == cs@.len(),
            r@ == cs@.subrange(a as int, i as int),
        decreases b - i,
    {
        r.push(cs[i]);
        proof {
            assert(cs@.subrange(a as int, i + 1) =~= cs@.subrange(a as int, i as int).push(cs@[i as int]));
        }
        i += 1;
    }
    Ok(r)
}

/// The value of the variable-length integer made of the first `i` bytes of
/// `bs`: seven bits of each byte, low bits first, bits beyond 64 dropped.
pub open spec fn varint_value(bs: Seq<u8>, i: int) -> u64
    decreases i,
{
    if i <= 0 {
        0
    } else {
        varint_value(bs, i - 1) | ((((bs[i - 1] & 0x7f) as u64) << ((7 * (i - 1)) as u64)) as u64)
    }
}

/// A byte is followed by another one of the same integer when its high
/// bit is set.
pub open spec fn varint_continues(b: u8) -> bool {
    b & 0x80 != 0
}

/// Whether a byte is followed by another one of the same integer.
pub fn continues(b: u8) -> (r: bool)
    ensures
        r == varint_continues(b),
{
    b & 0x80 != 0
}

/// The value of the variable-length integer whose bytes are `bs`.
pub fn varint(bs: &[u8]) -> (r: u64)
    requires
        bs@.len() <= 10,
    ensures
        r == varint_value(bs@, bs@.len() as int),
{
    let mut value: u64 = 0;
    let mut i: usize = 0;
    while i < bs.len()
        invariant
            0 <= i <= bs@.len() <= 10,
            value == varint_value(bs@, i as int),
        decreases bs@.len() - i,
    {
        let shift: u64 = (7 * i) as u64;
        value = value | (((bs[i] & 0x7f) as u64) << shift);
        i += 1;
    }
    value
}

} // verus!
