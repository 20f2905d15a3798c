//! Character-level helpers for the line protocol: equality, prefixes,
//! whitespace trimming and token splitting, with their meanings as sequence
//! functions.

use vstd::prelude::*;
use vstd::string::StrSliceExecFns;

verus! {

/// The whitespace the protocol strips: space, tab, carriage return, newline.
pub open spec fn is_ws(c: char) -> bool {
    c == ' ' || c == '\t' || c == '\r' || c == '\n'
}

pub open spec fn trim_front(s: Seq<char>) -> Seq<char>
    decreases s.len(),
{
    if s.len() > 0 && is_ws(s[0]) {
        trim_front(s.drop_first())
    } else {
        s
    }
}

pub open spec fn trim_back(s: Seq<char>) -> Seq<char>
    decreases s.len(),
{
    if s.len() > 0 && is_ws(s.last()) {
        trim_back(s.drop_last())
    } else {
        s
    }
}

/// What `trim` leaves: the sequence without leading and trailing whitespace.
pub open spec fn spec_trim(s: Seq<char>) -> Seq<char> {
    trim_back(trim_front(s))
}

proof fn lemma_trim_front_is_skip(s: Seq<char>, k: int)
    requires
        0 <= k <= s.len(),
        forall|i: int| 0 <= i < k ==> is_ws(s[i]),
        k < s.len() ==> !is_ws(s[k]),
    ensures
        trim_front(s) == s.skip(k),
    decreases k,
{
    if k == 0 {
        assert(s.skip(0) =~= s);
    } else {
        assert(is_ws(s[0]));
        assert forall|i: int| 0 <= i < k - 1 implies is_ws(s.drop_first()[i]) by {
            assert(s.drop_first()[i] == s[i + 1]);
        }
        if k - 1 < s.drop_first().len() {
            assert(s.drop_first()[k - 1] == s[k]);
        }
        lemma_trim_front_is_skip(s.drop_first(), k - 1);
        assert(s.drop_first().skip(k - 1) =~= s.skip(k));
    }
}

proof fn lemma_trim_back_is_take(s: Seq<char>, k: int)
    requires
        0 <= k <= s.len(),
        forall|i: int| k <= i < s.len() ==> is_ws(s[i]),
        k > 0 ==> !is_ws(s[k - 1]),
    ensures
        trim_back(s) == s.take(k),
    decreases s.len() - k,
{
    if k == s.len() {
        assert(s.take(k) =~= s);
    } else {
        assert(is_ws(s.last()));
        assert(s.drop_last() =~= s.take(s.len() - 1));
        assert forall|i: int| k <= i < s.drop_last().len() implies is_ws(s.drop_last()[i]) by {
            assert(s.drop_last()[i] == s[i]);
        }
        lemma_trim_back_is_take(s.drop_last(), k);
        assert(s.drop_last().take(k) =~= s.take(k));
    }
}

/// Character equality of two strings.
pub fn str_eq(a: &str, b: &str) -> (r: bool)
    ensures
        r == (a@ == b@),
{
    let la = a.unicode_len();
    let lb = b.unicode_len();
    if la != lb {
        return false;
    }
    let mut i: usize = 0;
    while i < la
        invariant
            i <= la,
            la == a@.len() == b@.len(),
            forall|k: int| 0 <= k < i ==> a@[k] == b@[k],
        decreases la - i,
    {
        if a.get_char(i) != b.get_char(i) {
            return false;
        }
        i = i + 1;
    }
    proof {
        assert(a@ =~= b@);
    }
    true
}

/// Whether `s` begins with `p`, character for character.
pub fn starts_with(s: &str, p: &str) -> (r: bool)
    ensures
        r == (p@.len() <= s@.len() && s@.take(p@.len() as int) == p@),
{
    let ls = s.unicode_len();
    let lp = p.unicode_len();
    if lp > ls {
        return false;
    }
    let mut i: usize = 0;
    while i < lp
        invariant
            i <= lp <= ls,
            ls == s@.len(),
            lp == p@.len(),
            forall|k: int| 0 <= k < i ==> s@[k] == p@[k],
        decreases lp - i,
    {
        if s.get_char(i) != p.get_char(i) {
            proof {
                assert(s@.take(p@.len() as int)[i as int] != p@[i as int]);
            }
            return false;
        }
        i = i + 1;
    }
    proof {
        assert(s@.take(p@.len() as int) =~= p@);
    }
    true
}

/// Whether the character at `i` is protocol whitespace.
fn ws_at(s: &str, i: usize) -> (r: bool)
    requires
        i < s@.len(),
    ensures
        r == is_ws(s@[i as int]),
{
    let c = s.get_char(i);
    c == ' ' || c == '\t' || c == '\r' || c == '\n'
}

/// Strips leading and trailing whitespace.
pub fn trim(s: &str) -> (r: &str)
    ensures
        r@ == spec_trim(s@),
{
    let len = s.unicode_len();
    let mut lo: usize = 0;
    while lo < len && ws_at(s, lo)
        invariant
            lo <= len == s@.len(),
            forall|i: int| 0 <= i < lo ==> is_ws(s@[i]),
        decreases len - lo,
    {
        lo = lo + 1;
    }
    proof {
        lemma_trim_front_is_skip(s@, lo as int);
    }
    let mut hi: usize = len;
    while hi > lo && ws_at(s, hi - 1)
        invariant
            lo <= hi <= len == s@.len(),
            forall|i: int| 0 <= i < lo ==> is_ws(s@[i]),
            lo < len ==> !is_ws(s@[lo as int]),
            forall|i: int| hi <= i < len ==> is_ws(s@[i]),
        decreases hi,
    {
        hi = hi - 1;
    }
    let r = s.substring_char(lo, hi);
    proof {
        let f = s@.skip(lo as int);
        assert forall|i: int| hi - lo <= i < f.len() implies is_ws(f[i]) by {
            assert(f[i] == s@[lo + i]);
        }
        if hi > lo {
            assert(!is_ws(s@[hi - 1]));
            assert(f[hi - lo - 1] == s@[hi - 1]);
        }
        lemma_trim_back_is_take(f, hi - lo);
        assert(f.take(hi - lo) =~= s@.subrange(lo as int, hi as int));
    }
    r
}

/// Strips leading whitespace only, leaving the tail of the string as it is.
pub fn trim_start(s: &str) -> (r: &str)
    ensures
        r@ == trim_front(s@),
{
    let len = s.unicode_len();
    let mut lo: usize = 0;
    while lo < len && ws_at(s, lo)
        invariant
            lo <= len == s@.len(),
            forall|i: int| 0 <= i < lo ==> is_ws(s@[i]),
        decreases len - lo,
    {
        lo = lo + 1;
    }
    proof {
        lemma_trim_front_is_skip(s@, lo as int);
    }
    let r = s.substring_char(lo, len);
    proof {
        assert(r@ =~= s@.skip(lo as int));
    }
    r
}

/// Index of the first character at or after `from` that satisfies the
/// whitespace test (`ws == true`) or equals `c` (`ws == false`); the length
/// if there is none.
fn scan_for(s: &str, from: usize, c: char, ws: bool) -> (r: usize)
    requires
        from <= s@.len(),
    ensures
        from <= r <= s@.len(),
        r < s@.len() ==> (if ws {
            is_ws(s@[r as int])
        } else {
            s@[r as int] == c
        }),
        forall|i: int|
            from <= i < r ==> (if ws {
                !is_ws(s@[i])
            } else {
                s@[i] != c
            }),
{
    let len = s.unicode_len();
    let mut i: usize = from;
    while i < len
        invariant
            from <= i <= len == s@.len(),
            forall|k: int|
                from <= k < i ==> (if ws {
                    !is_ws(s@[k])
                } else {
                    s@[k] != c
                }),
        decreases len - i,
    {
        let g = s.get_char(i);
        if ws {
            if g == ' ' || g == '\t' || g == '\r' || g == '\n' {
                return i;
            }
        } else {
            if g == c {
                return i;
            }
        }
        i = i + 1;
    }
    i
}

/// Index of the first occurrence of `c` in `s`, or `s.len()`.
pub open spec fn char_index(s: Seq<char>, c: char) -> int
    decreases s.len(),
{
    if s.len() == 0 {
        0
    } else if s[0] == c {
        0
    } else {
        1 + char_index(s.drop_first(), c)
    }
}

/// Index of the first whitespace character in `s`, or `s.len()`.
pub open spec fn ws_index(s: Seq<char>) -> int
    decreases s.len(),
{
    if s.len() == 0 {
        0
    } else if is_ws(s[0]) {
        0
    } else {
        1 + ws_index(s.drop_first())
    }
}

pub proof fn lemma_char_index_is(s: Seq<char>, c: char, j: int)
    requires
        0 <= j <= s.len(),
        j < s.len() ==> s[j] == c,
        forall|i: int| 0 <= i < j ==> s[i] != c,
    ensures
        char_index(s, c) == j,
    decreases s.len(),
{
    if s.len() > 0 && j > 0 {
        assert(s[0] != c);
        assert forall|i: int| 0 <= i < j - 1 implies s.drop_first()[i] != c by {
            assert(s.drop_first()[i] == s[i + 1]);
        }
        if j - 1 < s.drop_first().len() {
            assert(s.drop_first()[j - 1] == s[j]);
        }
        lemma_char_index_is(s.drop_first(), c, j - 1);
    }
}

pub proof fn lemma_ws_index_is(s: Seq<char>, j: int)
    requires
        0 <= j <= s.len(),
        j < s.len() ==> is_ws(s[j]),
        forall|i: int| 0 <= i < j ==> !is_ws(s[i]),
    ensures
        ws_index(s) == j,
    decreases s.len(),
{
    if s.len() > 0 && j > 0 {
        assert(!is_ws(s[0]));
        assert forall|i: int| 0 <= i < j - 1 implies !is_ws(s.drop_first()[i]) by {
            assert(s.drop_first()[i] == s[i + 1]);
        }
        if j - 1 < s.drop_first().len() {
            assert(s.drop_first()[j - 1] == s[j]);
        }
        lemma_ws_index_is(s.drop_first(), j - 1);
    }
}

/// Index of the first occurrence of `c` at or after `from`, or the length.
pub fn find_char_from(s: &str, from: usize, c: char) -> (r: usize)
    requires
        from <= s@.len(),
    ensures
        from <= r <= s@.len(),
        r < s@.len() ==> s@[r as int] == c,
        forall|i: int| from <= i < r ==> s@[i] != c,
{
    scan_for(s, from, c, false)
}

/// Index of the first whitespace character at or after `from`, or the length.
pub fn find_ws_from(s: &str, from: usize) -> (r: usize)
    requires
        from <= s@.len(),
    ensures
        from <= r <= s@.len(),
        r < s@.len() ==> is_ws(s@[r as int]),
        forall|i: int| from <= i < r ==> !is_ws(s@[i]),
{
    scan_for(s, from, ' ', true)
}

/// The next whitespace-delimited token of `s`, and what follows it: first
/// drop leading whitespace, then take up to the next whitespace.
pub open spec fn spec_token(s: Seq<char>) -> (Seq<char>, Seq<char>) {
    let t = trim_front(s);
    let e = ws_index(t);
    (t.take(e), t.skip(e))
}

/// Bounds `(a, b)` of the next whitespace-delimited token of `s` at or after
/// `from`: the token is `s[a..b]`, what follows it starts at `b`.
pub fn next_token(s: &str, from: usize) -> (r: (usize, usize))
    requires
        from <= s@.len(),
    ensures
        from <= r.0 <= r.1 <= s@.len(),
        spec_token(s@.skip(from as int)).0 == s@.subrange(r.0 as int, r.1 as int),
        spec_token(s@.skip(from as int)).1 == s@.skip(r.1 as int),
{
    let len = s.unicode_len();
    let mut a: usize = from;
    while a < len && ws_at(s, a)
        invariant
            from <= a <= len == s@.len(),
            forall|i: int| from <= i < a ==> is_ws(s@[i]),
        decreases len - a,
    {
        a = a + 1;
    }
    let b = find_ws_from(s, a);
    proof {
        let f = s@.skip(from as int);
        assert forall|i: int| 0 <= i < a - from implies is_ws(f[i]) by {
            assert(f[i] == s@[from + i]);
        }
        if a - from < f.len() {
            assert(f[a - from] == s@[a as int]);
        }
        lemma_trim_front_is_skip(f, a - from);
        assert(f.skip(a - from) =~= s@.skip(a as int));
        let t = s@.skip(a as int);
        assert forall|i: int| 0 <= i < b - a implies !is_ws(t[i]) by {
            assert(t[i] == s@[a + i]);
        }
        if b < s@.len() {
            assert(t[b - a] == s@[b as int]);
        }
        lemma_ws_index_is(t, b - a);
        assert(t.take(b - a) =~= s@.subrange(a as int, b as int));
        assert(t.skip(b - a) =~= s@.skip(b as int));
    }
    (a, b)
}

} // verus!
