//! Small string utilities: decimal rendering and character-level helpers
//! shared by the title parser model and the page-text builders.

use vstd::prelude::*;

verus! {

/// The character for one decimal digit.
pub open spec fn digit_char(d: int) -> char {
    if d == 0 {
        '0'
    } else if d == 1 {
        '1'
    } else if d == 2 {
        '2'
    } else if d == 3 {
        '3'
    } else if d == 4 {
        '4'
    } else if d == 5 {
        '5'
    } else if d == 6 {
        '6'
    } else if d == 7 {
        '7'
    } else if d == 8 {
        '8'
    } else {
        '9'
    }
}

/// The decimal digits of a non-negative integer, most significant first.
pub open spec fn dec_digits(n: int) -> Seq<char>
    decreases n,
{
    if n < 10 {
        seq![digit_char(n)]
    } else {
        dec_digits(n / 10).push(digit_char(n % 10))
    }
}

/// The decimal rendering of a signed integer.
pub open spec fn int_digits(n: int) -> Seq<char> {
    if n < 0 {
        seq!['-'].add(dec_digits(-n))
    } else {
        dec_digits(n)
    }
}

/// Render an unsigned integer in decimal.
pub fn u64_to_dec(n: u64) -> (r: Vec<char>)
    ensures
        r@ == dec_digits(n as int),
{
    let mut rev: Vec<char> = Vec::new();
    let mut m = n;
    loop
        invariant_except_break
            dec_digits(n as int) == dec_digits(m as int).add(rev@.reverse()),
        ensures
            dec_digits(n as int) == rev@.reverse(),
        decreases m,
    {
        let d = (m % 10) as u8;
        let c: char = match d {
            0 => '0',
            1 => '1',
            2 => '2',
            3 => '3',
            4 => '4',
            5 => '5',
            6 => '6',
            7 => '7',
            8 => '8',
            _ => '9',
        };
        proof {
            assert(c == digit_char(m as int % 10));
        }
        let ghost rev0 = rev@;
        let ghost m0 = m as int;
        rev.push(c);
        if m < 10 {
            proof {
                assert(dec_digits(m0) =~= seq![digit_char(m0)]);
                assert(rev@.reverse() =~= seq![digit_char(m0)].add(rev0.reverse()));
                assert(dec_digits(m0).add(rev0.reverse()) =~= rev@.reverse());
            }
            break;
        }
        m = m / 10;
        proof {
            assert(dec_digits(m0) == dec_digits(m0 / 10).push(digit_char(m0 % 10)));
            assert(rev@.reverse() =~= seq![digit_char(m0 % 10)].add(rev0.reverse()));
            assert(dec_digits(m0).add(rev0.reverse()) =~= dec_digits(m0 / 10).add(rev@.reverse()));
        }
    }
    let mut out: Vec<char> = Vec::new();
    let mut i: usize = rev.len();
    while i > 0
        invariant
            0 <= i <= rev@.len(),
            out@ =~= rev@.subrange(i as int, rev@.len() as int).reverse(),
        decreases i,
    {
        i -= 1;
        out.push(rev[i]);
        proof {
            assert(out@ =~= rev@.subrange(i as int, rev@.len() as int).reverse());
        }
    }
    proof {
        assert(rev@.subrange(0, rev@.len() as int) =~= rev@);
        assert(out@ =~= rev@.reverse());
    }
    out
}

/// Render a signed integer in decimal, with a leading minus when negative.
pub fn i64_to_dec(n: i64) -> (r: Vec<char>)
    ensures
        r@ == int_digits(n as int),
{
    if n >= 0 {
        u64_to_dec(n as u64)
    } else {
        let mag: u64 = if n == i64::MIN {
            9223372036854775808u64
        } else {
            (-n) as u64
        };
        proof {
            assert(mag as int == -(n as int));
        }
        let digits = u64_to_dec(mag);
        let mut out: Vec<char> = Vec::new();
        out.push('-');
        let mut i: usize = 0;
        let len = digits.len();
        while i < len
            invariant
                len == digits@.len(),
                0 <= i <= len,
                out@ =~= seq!['-'].add(digits@.take(i as int)),
            decreases len - i,
        {
            out.push(digits[i]);
            proof {
                assert(out@ =~= seq!['-'].add(digits@.take(i as int + 1)));
            }
            i += 1;
        }
        proof {
            assert(digits@.take(len as int) =~= digits@);
        }
        out
    }
}

/// Underscores read as spaces in titles.
pub open spec fn spec_underscores_to_spaces(s: Seq<char>) -> Seq<char> {
    s.map_values(|c: char| if c == '_' { ' ' } else { c })
}

/// Replace every underscore with a space.
pub fn underscores_to_spaces(s: &Vec<char>) -> (r: Vec<char>)
    ensures
        r@ == spec_underscores_to_spaces(s@),
{
    let mut out: Vec<char> = Vec::new();
    let mut i: usize = 0;
    let len = s.len();
    while i < len
        invariant
            len == s@.len(),
            0 <= i <= len,
            out@ =~= spec_underscores_to_spaces(s@).take(i as int),
        decreases len - i,
    {
        let c = s[i];
        if c == '_' {
            out.push(' ');
        } else {
            out.push(c);
        }
        proof {
            assert(out@ =~= spec_underscores_to_spaces(s@).take(i as int + 1));
        }
        i += 1;
    }
    proof {
        assert(spec_underscores_to_spaces(s@).take(len as int) =~= spec_underscores_to_spaces(s@));
    }
    out
}

/// Relies on str::chars: iterating a string yields exactly its characters,
/// in order.
#[verifier::external_body]
pub fn str_chars(s: &str) -> (r: Vec<char>)
    ensures
        r@ == s@,
{
    s.chars().collect()
}

/// Relies on String's FromIterator over char: collecting characters
/// builds the string of exactly those characters, in order.
#[verifier::external_body]
pub fn chars_string(v: &Vec<char>) -> (r: String)
    ensures
        r@ == v@,
{
    v.iter().collect()
}

/// The position of the first occurrence of `c`, if any.
pub open spec fn spec_find_char(s: Seq<char>, c: char) -> Option<int>
    decreases s.len(),
{
    if s.len() == 0 {
        Option::None
    } else if s[0] == c {
        Option::Some(0)
    } else {
        match spec_find_char(s.subrange(1, s.len() as int), c) {
            Option::Some(i) => Option::Some(i + 1),
            Option::None => Option::None,
        }
    }
}

/// The first occurrence really is first, and occurs.
pub proof fn lemma_find_char(s: Seq<char>, c: char)
    ensures
        match spec_find_char(s, c) {
            Option::Some(i) => 0 <= i < s.len() && s[i] == c && forall|j: int|
                0 <= j < i ==> s[j] != c,
            Option::None => forall|j: int| 0 <= j < s.len() ==> s[j] != c,
        },
    decreases s.len(),
{
    if s.len() == 0 {
    } else if s[0] == c {
    } else {
        let rest = s.subrange(1, s.len() as int);
        lemma_find_char(rest, c);
        match spec_find_char(rest, c) {
            Option::Some(i) => {
                assert(s[i + 1] == rest[i]);
                assert forall|j: int| 0 <= j < i + 1 implies s[j] != c by {
                    if j > 0 {
                        assert(rest[j - 1] == s[j]);
                    }
                }
            },
            Option::None => {
                assert forall|j: int| 0 <= j < s.len() implies s[j] != c by {
                    if j > 0 {
                        assert(rest[j - 1] == s[j]);
                    }
                }
            },
        }
    }
}

/// Find the first occurrence of `c`.
pub fn find_char(s: &Vec<char>, c: char) -> (r: Option<usize>)
    ensures
        match r {
            Option::Some(i) => spec_find_char(s@, c) == Option::Some(i as int),
            Option::None => spec_find_char(s@, c) is None,
        },
{
    let mut i: usize = 0;
    let len = s.len();
    proof {
        lemma_find_char(s@, c);
    }
    while i < len
        invariant
            len == s@.len(),
            0 <= i <= len,
            forall|j: int| 0 <= j < i ==> s@[j] != c,
            match spec_find_char(s@, c) {
                Option::Some(k) => 0 <= k < s@.len() && s@[k] == c && forall|j: int|
                    0 <= j < k ==> s@[j] != c,
                Option::None => forall|j: int| 0 <= j < s@.len() ==> s@[j] != c,
            },
        decreases len - i,
    {
        if s[i] == c {
            proof {
                match spec_find_char(s@, c) {
                    Option::Some(k) => {
                        if k < i {
                            assert(s@[k] == c);
                        }
                        if k > i {
                            assert(s@[i as int] != c);
                        }
                    },
                    Option::None => {
                        assert(s@[i as int] != c);
                    },
                }
            }
            return Option::Some(i);
        }
        i += 1;
    }
    Option::None
}

} // verus!
