//! Decimal rendering and parsing of `u64` values, over bytes (for log
//! records) and over characters (for protocol lines).

use vstd::prelude::*;

verus! {

pub open spec fn is_digit_byte(b: u8) -> bool {
    48 <= b <= 57
}

pub open spec fn is_digit_char(c: char) -> bool {
    '0' <= c <= '9'
}

/// The canonical decimal rendering of `n` as ASCII bytes (no sign, no
/// leading zeros except for `n == 0` itself).
pub open spec fn dec_digits(n: nat) -> Seq<u8>
    decreases n,
{
    if n < 10 {
        seq![(48 + n) as u8]
    } else {
        dec_digits(n / 10).push((48 + n % 10) as u8)
    }
}

/// The same rendering, as characters.
pub open spec fn dec_chars(n: nat) -> Seq<char>
    decreases n,
{
    if n < 10 {
        seq![(48 + n) as u8 as char]
    } else {
        dec_chars(n / 10).push((48 + n % 10) as u8 as char)
    }
}

pub open spec fn all_digit_bytes(s: Seq<u8>) -> bool {
    forall|i: int| 0 <= i < s.len() ==> is_digit_byte(s[i])
}

pub open spec fn all_digit_chars(s: Seq<char>) -> bool {
    forall|i: int| 0 <= i < s.len() ==> is_digit_char(s[i])
}

/// The value of a digit string, most significant digit first.
pub open spec fn digits_val(s: Seq<u8>) -> nat
    decreases s.len(),
{
    if s.len() == 0 {
        0
    } else {
        digits_val(s.drop_last()) * 10 + if is_digit_byte(s.last()) {
            (s.last() - 48) as nat
        } else {
            0
        }
    }
}

pub open spec fn digits_val_chars(s: Seq<char>) -> nat
    decreases s.len(),
{
    if s.len() == 0 {
        0
    } else {
        digits_val_chars(s.drop_last()) * 10 + if is_digit_char(s.last()) {
            (s.last() as u8 - 48) as nat
        } else {
            0
        }
    }
}

/// What it means for a byte string to be a valid `u64` decimal: one or more
/// digits whose value fits in a `u64`.
pub open spec fn spec_parse_u64(s: Seq<u8>) -> Option<u64> {
    if s.len() > 0 && all_digit_bytes(s) && digits_val(s) <= u64::MAX {
        Some(digits_val(s) as u64)
    } else {
        None
    }
}

pub open spec fn spec_parse_u64_chars(s: Seq<char>) -> Option<u64> {
    if s.len() > 0 && all_digit_chars(s) && digits_val_chars(s) <= u64::MAX {
        Some(digits_val_chars(s) as u64)
    } else {
        None
    }
}

/// As `spec_parse_u64_chars`, but bounded by what a `usize` can hold.
pub open spec fn spec_parse_usize_chars(s: Seq<char>) -> Option<usize> {
    if s.len() > 0 && all_digit_chars(s) && digits_val_chars(s) <= usize::MAX {
        Some(digits_val_chars(s) as usize)
    } else {
        None
    }
}

/// The canonical rendering is made of digits and reads back to its value.
pub proof fn lemma_dec_digits_val(n: nat)
    ensures
        dec_digits(n).len() >= 1,
        all_digit_bytes(dec_digits(n)),
        digits_val(dec_digits(n)) == n,
    decreases n,
{
    if n < 10 {
        assert(dec_digits(n) =~= seq![(48 + n) as u8]);
        assert(dec_digits(n).drop_last() =~= Seq::<u8>::empty());
        assert(digits_val(Seq::<u8>::empty()) == 0);
        assert(dec_digits(n).last() == (48 + n) as u8);
        assert(is_digit_byte((48 + n) as u8));
        assert(digits_val(dec_digits(n)) == n);
        assert(all_digit_bytes(dec_digits(n)));
    } else {
        lemma_dec_digits_val(n / 10);
        assert(dec_digits(n).drop_last() =~= dec_digits(n / 10));
        assert(dec_digits(n).last() == (48 + n % 10) as u8);
        assert((n / 10) * 10 + n % 10 == n) by (nonlinear_arith);
        assert(is_digit_byte((48 + n % 10) as u8));
        assert(digits_val(dec_digits(n)) == digits_val(dec_digits(n / 10)) * 10 + n % 10);
        assert(digits_val(dec_digits(n)) == n);
        assert forall|i: int| 0 <= i < dec_digits(n).len() implies is_digit_byte(
            dec_digits(n)[i],
        ) by {
            if i < dec_digits(n).len() - 1 {
                assert(dec_digits(n)[i] == dec_digits(n / 10)[i]);
            }
        }
    }
}

pub proof fn lemma_dec_chars_val(n: nat)
    ensures
        dec_chars(n).len() >= 1,
        all_digit_chars(dec_chars(n)),
        digits_val_chars(dec_chars(n)) == n,
    decreases n,
{
    if n < 10 {
        assert(dec_chars(n) =~= seq![(48 + n) as u8 as char]);
        assert(dec_chars(n).drop_last() =~= Seq::<char>::empty());
        assert(digits_val_chars(Seq::<char>::empty()) == 0);
        assert(dec_chars(n).last() == (48 + n) as u8 as char);
        assert(((48 + n) as u8 as char) as u8 == (48 + n) as u8);
        assert(is_digit_char((48 + n) as u8 as char));
        assert(digits_val_chars(dec_chars(n)) == n);
        assert(all_digit_chars(dec_chars(n)));
    } else {
        lemma_dec_chars_val(n / 10);
        assert(dec_chars(n).drop_last() =~= dec_chars(n / 10));
        assert(dec_chars(n).last() == (48 + n % 10) as u8 as char);
        assert((n / 10) * 10 + n % 10 == n) by (nonlinear_arith);
        assert(((48 + n % 10) as u8 as char) as u8 == (48 + n % 10) as u8);
        assert(is_digit_char((48 + n % 10) as u8 as char));
        assert(digits_val_chars(dec_chars(n)) == digits_val_chars(dec_chars(n / 10)) * 10 + n
            % 10);
        assert(digits_val_chars(dec_chars(n)) == n);
        assert forall|i: int| 0 <= i < dec_chars(n).len() implies is_digit_char(
            dec_chars(n)[i],
        ) by {
            if i < dec_chars(n).len() - 1 {
                assert(dec_chars(n)[i] == dec_chars(n / 10)[i]);
            }
        }
    }
}

/// The canonical rendering of a `u64` parses back to it.
pub proof fn lemma_parse_dec_digits(n: u64)
    ensures
        spec_parse_u64(dec_digits(n as nat)) == Some(n),
{
    lemma_dec_digits_val(n as nat);
}

/// Extending a digit string on the right can only grow its value.
pub proof fn lemma_digits_val_prefix_le(s: Seq<u8>, i: int)
    requires
        0 <= i <= s.len(),
    ensures
        digits_val(s.take(i)) <= digits_val(s),
    decreases s.len() - i,
{
    if i < s.len() {
        lemma_digits_val_prefix_le(s, i + 1);
        assert(s.take(i + 1).drop_last() =~= s.take(i));
        assert(digits_val(s.take(i + 1)) >= digits_val(s.take(i)) * 10);
        assert(digits_val(s.take(i)) * 10 >= digits_val(s.take(i))) by (nonlinear_arith);
    } else {
        assert(s.take(i) =~= s);
    }
}

pub proof fn lemma_digits_val_chars_prefix_le(s: Seq<char>, i: int)
    requires
        0 <= i <= s.len(),
    ensures
        digits_val_chars(s.take(i)) <= digits_val_chars(s),
    decreases s.len() - i,
{
    if i < s.len() {
        lemma_digits_val_chars_prefix_le(s, i + 1);
        assert(s.take(i + 1).drop_last() =~= s.take(i));
        assert(digits_val_chars(s.take(i + 1)) >= digits_val_chars(s.take(i)) * 10);
        assert(digits_val_chars(s.take(i)) * 10 >= digits_val_chars(s.take(i))) by (nonlinear_arith);
    } else {
        assert(s.take(i) =~= s);
    }
}

/// Appends the decimal rendering of `n` to `out`.
pub fn push_dec_bytes(out: &mut Vec<u8>, n: u64)
    ensures
        final(out)@ == old(out)@ + dec_digits(n as nat),
    decreases n,
{
    if n < 10 {
        out.push(48 + n as u8);
        assert(final(out)@ =~= old(out)@ + dec_digits(n as nat));
    } else {
        push_dec_bytes(out, n / 10);
        out.push(48 + (n % 10) as u8);
        assert(final(out)@ =~= old(out)@ + dec_digits(n as nat));
    }
}

/// Parses `data[start..end]` as a `u64` decimal.
pub fn parse_u64_bytes(data: &[u8], start: usize, end: usize) -> (r: Option<u64>)
    requires
        start <= end <= data@.len(),
    ensures
        r == spec_parse_u64(data@.subrange(start as int, end as int)),
{
    let ghost s = data@.subrange(start as int, end as int);
    if start == end {
        return None;
    }
    let mut acc: u64 = 0;
    let mut i: usize = start;
    while i < end
        invariant
            start <= i <= end <= data@.len(),
            s == data@.subrange(start as int, end as int),
            all_digit_bytes(s.take(i - start)),
            acc == digits_val(s.take(i - start)),
        decreases end - i,
    {
        let b = data[i];
        proof {
            assert(s[i - start] == b);
        }
        if b < 48 || b > 57 {
            proof {
                assert(!is_digit_byte(s[i - start]));
                assert(!all_digit_bytes(s));
            }
            return None;
        }
        let d = (b - 48) as u64;
        if acc > (u64::MAX - d) / 10 {
            proof {
                assert(s.take(i - start + 1).drop_last() =~= s.take(i - start));
                assert(s.take(i - start + 1).last() == b);
                assert(digits_val(s.take(i - start + 1)) == acc * 10 + d);
                assert(acc * 10 + d > u64::MAX) by (nonlinear_arith)
                    requires
                        acc > (u64::MAX - d) / 10,
                        d <= 9,
                        0 <= acc,
                ;
                lemma_digits_val_prefix_le(s, i - start + 1);
                assert(digits_val(s) > u64::MAX);
            }
            return None;
        }
        proof {
            assert(acc * 10 + d <= u64::MAX) by (nonlinear_arith)
                requires
                    acc <= (u64::MAX - d) / 10,
                    d <= 9,
                    0 <= acc,
            ;
            assert(s.take(i - start + 1).drop_last() =~= s.take(i - start));
            assert(s.take(i - start + 1).last() == b);
        }
        acc = acc * 10 + d;
        i = i + 1;
    }
    proof {
        assert(s.take(end - start) =~= s);
    }
    Some(acc)
}

/// Parses the characters `s[start..end]` as a `u64` decimal.
pub fn parse_u64_chars(s: &str, start: usize, end: usize) -> (r: Option<u64>)
    requires
        start <= end <= s@.len(),
    ensures
        r == spec_parse_u64_chars(s@.subrange(start as int, end as int)),
{
    let ghost t = s@.subrange(start as int, end as int);
    if start == end {
        return None;
    }
    let mut acc: u64 = 0;
    let mut i: usize = start;
    while i < end
        invariant
            start <= i <= end <= s@.len(),
            t == s@.subrange(start as int, end as int),
            all_digit_chars(t.take(i - start)),
            acc == digits_val_chars(t.take(i - start)),
        decreases end - i,
    {
        let c = s.get_char(i);
        proof {
            assert(t[i - start] == c);
        }
        if c < '0' || c > '9' {
            proof {
                assert(!is_digit_char(t[i - start]));
            }
            return None;
        }
        let d = (c as u8 - 48) as u64;
        proof {
            assert(t.take(i - start + 1).drop_last() =~= t.take(i - start));
            assert(t.take(i - start + 1).last() == c);
        }
        if acc > (u64::MAX - d) / 10 {
            proof {
                assert(digits_val_chars(t.take(i - start + 1)) == acc * 10 + d);
                assert(acc * 10 + d > u64::MAX) by (nonlinear_arith)
                    requires
                        acc > (u64::MAX - d) / 10,
                        d <= 9,
                        0 <= acc,
                ;
                lemma_digits_val_chars_prefix_le(t, i - start + 1);
                assert(digits_val_chars(t) > u64::MAX);
            }
            return None;
        }
        proof {
            assert(acc * 10 + d <= u64::MAX) by (nonlinear_arith)
                requires
                    acc <= (u64::MAX - d) / 10,
                    d <= 9,
                    0 <= acc,
            ;
        }
        acc = acc * 10 + d;
        i = i + 1;
    }
    proof {
        assert(t.take(end - start) =~= t);
    }
    Some(acc)
}

/// Parses the characters `s[start..end]` as a `usize` decimal.
pub fn parse_usize_chars(s: &str, start: usize, end: usize) -> (r: Option<usize>)
    requires
        start <= end <= s@.len(),
    ensures
        r == spec_parse_usize_chars(s@.subrange(start as int, end as int)),
{
    let ghost t = s@.subrange(start as int, end as int);
    match parse_u64_chars(s, start, end) {
        Some(v) => {
            if v <= usize::MAX as u64 {
                proof {
                    assert(digits_val_chars(t) == v);
                }
                Some(v as usize)
            } else {
                None
            }
        },
        None => {
            proof {
                if s@.subrange(start as int, end as int).len() > 0 && all_digit_chars(t)
                    && digits_val_chars(t) <= usize::MAX {
                    assert(digits_val_chars(t) <= u64::MAX);
                }
            }
            None
        },
    }
}

/// The one-character string for a decimal digit.
fn digit_str(d: u64) -> (s: &'static str)
    requires
        d < 10,
    ensures
        s@ == seq![(48 + d) as u8 as char],
{
    if d == 0 {
        proof {
            reveal_strlit("0");
            assert("0"@ =~= seq![(48 + 0) as u8 as char]);
        }
        "0"
    } else if d == 1 {
        proof {
            reveal_strlit("1");
            assert("1"@ =~= seq![(48 + 1) as u8 as char]);
        }
        "1"
    } else if d == 2 {
        proof {
            reveal_strlit("2");
            assert("2"@ =~= seq![(48 + 2) as u8 as char]);
        }
        "2"
    } else if d == 3 {
        proof {
            reveal_strlit("3");
            assert("3"@ =~= seq![(48 + 3) as u8 as char]);
        }
        "3"
    } else if d == 4 {
        proof {
            reveal_strlit("4");
            assert("4"@ =~= seq![(48 + 4) as u8 as char]);
        }
        "4"
    } else if d == 5 {
        proof {
            reveal_strlit("5");
            assert("5"@ =~= seq![(48 + 5) as u8 as char]);
        }
        "5"
    } else if d == 6 {
        proof {
            reveal_strlit("6");
            assert("6"@ =~= seq![(48 + 6) as u8 as char]);
        }
        "6"
    } else if d == 7 {
        proof {
            reveal_strlit("7");
            assert("7"@ =~= seq![(48 + 7) as u8 as char]);
        }
        "7"
    } else if d == 8 {
        proof {
            reveal_strlit("8");
            assert("8"@ =~= seq![(48 + 8) as u8 as char]);
        }
        "8"
    } else {
        proof {
            reveal_strlit("9");
            assert("9"@ =~= seq![(48 + 9) as u8 as char]);
        }
        "9"
    }
}

/// Renders `n` in decimal.
pub fn u64_to_string(n: u64) -> (s: String)
    ensures
        s@ == dec_chars(n as nat),
    decreases n,
{
    if n < 10 {
        let s = String::from_str(digit_str(n));
        proof {
            assert(s@ =~= dec_chars(n as nat));
        }
        s
    } else {
        let mut s = u64_to_string(n / 10);
        s.append(digit_str(n % 10));
        proof {
            assert(s@ =~= dec_chars(n as nat));
        }
        s
    }
}

} // verus!
