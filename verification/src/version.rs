//! The catalogue's version: a `major.minor.patch` triple of unsigned
//! integers, read from and written back to its exact textual form.

use vstd::prelude::*;

use crate::text::{lemma_first_pos_at, lemma_split_char_len, split_char};

verus! {

/// The digit character for `d`.
pub open spec fn dchar(d: nat) -> char {
    if d == 0 {
        '0'
    } else if d == 1 {
        '1'
    } else if d == 2 {
        '2'
    } else if d == 3 {
        '3'
    } else if d == 4 {
        '4'
    } else if d == 5 {
        '5'
    } else if d == 6 {
        '6'
    } else if d == 7 {
        '7'
    } else if d == 8 {
        '8'
    } else {
        '9'
    }
}

/// The decimal text of `n`, without leading zeros.
pub open spec fn dec_text(n: nat) -> Seq<char>
    decreases n,
{
    if n < 10 {
        seq![dchar(n)]
    } else {
        dec_text(n / 10).push(dchar(n % 10))
    }
}

/// Whether `c` is a decimal digit.
pub open spec fn is_digit(c: char) -> bool {
    '0' <= c && c <= '9'
}

/// The value of the digit `c`.
pub open spec fn digit_val(c: char) -> nat {
    if c == '0' {
        0
    } else if c == '1' {
        1
    } else if c == '2' {
        2
    } else if c == '3' {
        3
    } else if c == '4' {
        4
    } else if c == '5' {
        5
    } else if c == '6' {
        6
    } else if c == '7' {
        7
    } else if c == '8' {
        8
    } else {
        9
    }
}

/// Whether every character of `s` is a decimal digit.
pub open spec fn all_digits(s: Seq<char>) -> bool {
    forall|i: int| 0 <= i < s.len() ==> is_digit(s[i])
}

/// The value of the digit string `s`.
pub open spec fn digits_val(s: Seq<char>) -> nat
    decreases s.len(),
{
    if s.len() == 0 {
        0
    } else {
        digits_val(s.drop_last()) * 10 + digit_val(s.last())
    }
}

/// Whether `s` is a non-empty digit string whose value fits in a `u64`.
pub open spec fn is_uint_text(s: Seq<char>) -> bool {
    s.len() > 0 && all_digits(s) && digits_val(s) <= u64::MAX
}

/// The value of a prefix never exceeds the value of the whole digit string.
proof fn lemma_digits_val_prefix(s: Seq<char>, i: int)
    requires
        0 <= i <= s.len(),
    ensures
        digits_val(s.take(i)) <= digits_val(s),
    decreases s.len() - i,
{
    if i == s.len() {
        assert(s.take(i) =~= s);
    } else {
        lemma_digits_val_prefix(s, i + 1);
        assert(s.take(i + 1).drop_last() =~= s.take(i));
        assert(digits_val(s.take(i + 1)) == digits_val(s.take(i)) * 10 + digit_val(
            s.take(i + 1).last(),
        ));
    }
}

/// The digit character for a digit below ten.
fn digit_char(d: u64) -> (r: char)
    requires
        d < 10,
    ensures
        r == dchar(d as nat),
{
    if d == 0 {
        '0'
    } else if d == 1 {
        '1'
    } else if d == 2 {
        '2'
    } else if d == 3 {
        '3'
    } else if d == 4 {
        '4'
    } else if d == 5 {
        '5'
    } else if d == 6 {
        '6'
    } else if d == 7 {
        '7'
    } else if d == 8 {
        '8'
    } else {
        '9'
    }
}

/// The decimal text of `n`.
pub fn u64_text(n: u64) -> (r: String)
    ensures
        r@ == dec_text(n as nat),
    decreases n,
{
    if n < 10 {
        let mut s = String::new();
        push_digit(&mut s, n);
        assert(s@ =~= dec_text(n as nat));
        s
    } else {
        assert(n / 10 < n && n / 10 >= 1) by (nonlinear_arith)
            requires
                n >= 10,
        ;
        let mut s = u64_text(n / 10);
        push_digit(&mut s, n % 10);
        assert((n / 10) as nat == n as nat / 10);
        assert((n % 10) as nat == n as nat % 10);
        assert(s@ =~= dec_text(n as nat));
        s
    }
}

/// Appends one digit character.
fn push_digit(s: &mut String, d: u64)
    requires
        d < 10,
    ensures
        final(s)@ == old(s)@.push(dchar(d as nat)),
{
    crate::text::push_char(s, digit_char(d));
}

/// The value of the digit `c`, for a digit character.
fn digit_of(c: char) -> (r: u64)
    requires
        is_digit(c),
    ensures
        r == digit_val(c),
        r < 10,
{
    if c == '0' {
        0
    } else if c == '1' {
        1
    } else if c == '2' {
        2
    } else if c == '3' {
        3
    } else if c == '4' {
        4
    } else if c == '5' {
        5
    } else if c == '6' {
        6
    } else if c == '7' {
        7
    } else if c == '8' {
        8
    } else {
        9
    }
}

/// Reads a `u64` from a string of decimal digits: the read fails on an
/// empty string, on any non-digit character, and on a value over
/// `u64::MAX`.
pub fn parse_u64(s: &str) -> (r: Option<u64>)
    ensures
        match r {
            Some(v) => is_uint_text(s@) && v as nat == digits_val(s@),
            None => !is_uint_text(s@),
        },
{
    let n = s.unicode_len();
    if n == 0 {
        return None;
    }
    let mut v: u64 = 0;
    let mut i: usize = 0;
    assert(s@.take(0) =~= Seq::<char>::empty());
    while i < n
        invariant
            0 <= i <= n,
            n == s@.len(),
            n <= usize::MAX,
            all_digits(s@.take(i as int)),
            v as nat == digits_val(s@.take(i as int)),
        decreases n - i,
    {
        let c = s.get_char(i);
        if c < '0' || c > '9' {
            assert(!is_digit(s@[i as int]));
            assert(!all_digits(s@));
            return None;
        }
        let d = digit_of(c);
        if v > 1844674407370955161u64 || (v == 1844674407370955161u64 && d > 5) {
            proof {
                assert(s@.take(i + 1).drop_last() =~= s@.take(i as int));
                assert(s@.take(i + 1).last() == c);
                assert(digits_val(s@.take(i + 1)) == (v as nat) * 10 + digit_val(c));
                assert((v as nat) * 10 + digit_val(c) > u64::MAX as nat);
                lemma_digits_val_prefix(s@, i + 1);
                assert(digits_val(s@) > u64::MAX);
            }
            return None;
        }
        v = v * 10 + d;
        proof {
            assert(s@.take(i + 1).drop_last() =~= s@.take(i as int));
            assert(s@.take(i + 1).last() == c);
            assert(forall|k: int|
                0 <= k < i + 1 ==> is_digit(#[trigger] s@.take(i + 1)[k]));
        }
        i = i + 1;
    }
    assert(s@.take(n as int) =~= s@);
    Some(v)
}

/// A `major.minor.patch` version.
#[derive(Debug, Clone, Copy, PartialEq, Eq, Structural)]
pub struct Version {
    pub major: u64,
    pub minor: u64,
    pub patch: u64,
}

/// The `major.minor.patch` text of `v`.
pub open spec fn version_text(v: Version) -> Seq<char> {
    dec_text(v.major as nat) + seq!['.'] + dec_text(v.minor as nat) + seq!['.'] + dec_text(
        v.patch as nat,
    )
}

/// Whether `s` has the exact shape `<uint>.<uint>.<uint>`: three parts
/// separated by dots, each a digit string whose value fits in a `u64`.
pub open spec fn version_ok(s: Seq<char>) -> bool {
    let parts = split_char(s, '.');
    parts.len() == 3 && is_uint_text(parts[0]) && is_uint_text(parts[1]) && is_uint_text(
        parts[2],
    )
}

impl Version {
    /// A version from its three components.
    pub fn new(major: u64, minor: u64, patch: u64) -> (r: Version)
        ensures
            r == (Version { major, minor, patch }),
    {
        Version { major, minor, patch }
    }

    /// The `major.minor.patch` text of the version.
    pub fn text(&self) -> (r: String)
        ensures
            r@ == version_text(*self),
    {
        let mut s = u64_text(self.major);
        crate::text::push_char(&mut s, '.');
        s.append(u64_text(self.minor).as_str());
        crate::text::push_char(&mut s, '.');
        s.append(u64_text(self.patch).as_str());
        assert(s@ =~= version_text(*self));
        s
    }

    /// Reads a version from the exact textual form `<uint>.<uint>.<uint>`;
    /// any other shape fails to parse.
    pub fn parse(s: &str) -> (r: Option<Version>)
        ensures
            match r {
                Some(v) => {
                    &&& version_ok(s@)
                    &&& v.major as nat == digits_val(split_char(s@, '.')[0])
                    &&& v.minor as nat == digits_val(split_char(s@, '.')[1])
                    &&& v.patch as nat == digits_val(split_char(s@, '.')[2])
                },
                None => !version_ok(s@),
            },
    {
        let n = s.unicode_len();
        let d1 = crate::text::find_char(s, '.', 0);
        if d1 == n {
            proof {
                lemma_first_pos_at(s@, '.', n as int);
                assert(split_char(s@, '.') =~= seq![s@]);
            }
            return None;
        }
        let d2 = crate::text::find_char(s, '.', d1 + 1);
        let ghost rest1 = s@.skip(d1 + 1);
        proof {
            lemma_first_pos_at(s@, '.', d1 as int);
            lemma_first_pos_at(rest1, '.', d2 - d1 - 1);
        }
        if d2 == n {
            proof {
                assert(split_char(rest1, '.') =~= seq![rest1]);
                assert(split_char(s@, '.') =~= seq![s@.take(d1 as int)] + seq![rest1]);
            }
            return None;
        }
        let d3 = crate::text::find_char(s, '.', d2 + 1);
        let ghost rest2 = s@.skip(d2 + 1);
        proof {
            assert(rest1.skip(d2 - d1) =~= rest2);
            lemma_first_pos_at(rest2, '.', d3 - d2 - 1);
        }
        if d3 < n {
            proof {
                let ghost rest3 = rest2.skip(d3 - d2);
                lemma_split_char_len(rest3, '.');
                assert(split_char(rest2, '.') == seq![rest2.take(d3 - d2 - 1)] + split_char(
                    rest3,
                    '.',
                ));
                assert(split_char(rest2, '.').len() >= 2);
                assert(split_char(rest1, '.') == seq![rest1.take(d2 - d1 - 1)] + split_char(
                    rest2,
                    '.',
                ));
                assert(split_char(s@, '.') == seq![s@.take(d1 as int)] + split_char(
                    rest1,
                    '.',
                ));
                assert(split_char(s@, '.').len() >= 4);
            }
            return None;
        }
        proof {
            assert(split_char(rest2, '.') =~= seq![rest2]);
            assert(split_char(rest1, '.') == seq![rest1.take(d2 - d1 - 1)] + split_char(
                rest2,
                '.',
            ));
            assert(split_char(s@, '.') == seq![s@.take(d1 as int)] + split_char(rest1, '.'));
            assert(rest1.take(d2 - d1 - 1) =~= s@.subrange(d1 + 1, d2 as int));
            assert(split_char(s@, '.') =~= seq![
                s@.take(d1 as int),
                s@.subrange(d1 + 1, d2 as int),
                s@.skip(d2 + 1),
            ]);
        }
        let p1 = s.substring_char(0, d1);
        let p2 = s.substring_char(d1 + 1, d2);
        let p3 = s.substring_char(d2 + 1, n);
        assert(p1@ =~= s@.take(d1 as int));
        assert(p3@ =~= s@.skip(d2 + 1));
        let major = match parse_u64(p1) {
            Some(v) => v,
            None => {
                return None;
            },
        };
        let minor = match parse_u64(p2) {
            Some(v) => v,
            None => {
                return None;
            },
        };
        let patch = match parse_u64(p3) {
            Some(v) => v,
            None => {
                return None;
            },
        };
        Some(Version { major, minor, patch })
    }
}

} // verus!
