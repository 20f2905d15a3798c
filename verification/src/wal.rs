//! The segmented write-ahead log: record framing, recovery with tail
//! truncation, offset continuity, rotation, and offset-indexed reads.
//!
//! A record occupies one line of a segment file:
//! `<offset>\t<id>\t<payload_base64>\n`, with offset and id in decimal and the
//! payload base64-encoded (standard alphabet, padded). All reasoning here is
//! over the byte content of segments; the process around the library reads and
//! writes the actual files and hands the bytes in.

use vstd::prelude::*;

use crate::codec::{b64_dec, b64_enc, b64_decode, b64_encode, is_b64_byte, string_from_utf8};
use crate::numeric::{
    dec_chars, dec_digits, is_digit_byte, lemma_parse_dec_digits, parse_u64_bytes,
    push_dec_bytes, spec_parse_u64, spec_parse_u64_chars,
};
use vstd::multiset::Multiset;
use vstd::string::StringSliceAdditionalSpecFns;
use vstd::utf8::{decode_utf8, encode_utf8, valid_utf8};

verus! {

/// ASCII horizontal tab, the field separator of a record line.
pub const TAB: u8 = 9;

/// ASCII line feed, the record terminator.
pub const NL: u8 = 10;

/// Size at which the active segment is rotated.
pub const SEGMENT_MAX_BYTES: u64 = 16 * 1024 * 1024;

/// Index of the first occurrence of `b` in `s`, or `s.len()` if `b` does not
/// occur.
pub open spec fn index_of(s: Seq<u8>, b: u8) -> int
    decreases s.len(),
{
    if s.len() == 0 {
        0
    } else if s[0] == b {
        0
    } else {
        1 + index_of(s.drop_first(), b)
    }
}

pub proof fn lemma_index_of_props(s: Seq<u8>, b: u8)
    ensures
        0 <= index_of(s, b) <= s.len(),
        index_of(s, b) < s.len() ==> s[index_of(s, b)] == b,
        forall|i: int| 0 <= i < index_of(s, b) ==> s[i] != b,
    decreases s.len(),
{
    if s.len() > 0 && s[0] != b {
        lemma_index_of_props(s.drop_first(), b);
        let j = index_of(s.drop_first(), b);
        assert forall|i: int| 0 <= i < 1 + j implies s[i] != b by {
            if i > 0 {
                assert(s.drop_first()[i - 1] != b);
            }
        }
    }
}

/// The characterisation is exact: a position that holds `b` after a
/// `b`-free prefix is the index found.
pub proof fn lemma_index_of_is(s: Seq<u8>, b: u8, j: int)
    requires
        0 <= j < s.len(),
        s[j] == b,
        forall|i: int| 0 <= i < j ==> s[i] != b,
    ensures
        index_of(s, b) == j,
    decreases s.len(),
{
    if j > 0 {
        assert(s[0] != b);
        assert forall|i: int| 0 <= i < j - 1 implies s.drop_first()[i] != b by {
            assert(s.drop_first()[i] == s[i + 1]);
        }
        assert(s.drop_first()[j - 1] == b);
        lemma_index_of_is(s.drop_first(), b, j - 1);
    }
}

pub proof fn lemma_index_of_absent(s: Seq<u8>, b: u8)
    requires
        forall|i: int| 0 <= i < s.len() ==> s[i] != b,
    ensures
        index_of(s, b) == s.len(),
{
    lemma_index_of_props(s, b);
    if index_of(s, b) < s.len() {
        assert(s[index_of(s, b)] == b);
    }
}

/// What a record line (without its terminating `NL`) means: `Some` exactly
/// when there are exactly three tab-separated fields, the first two are valid
/// `u64` decimals, and the third is valid base64. The third field is kept
/// encoded.
pub open spec fn spec_parse_line(line: Seq<u8>) -> Option<(u64, u64, Seq<u8>)> {
    let t1 = index_of(line, TAB);
    if t1 == line.len() {
        None
    } else {
        let rest = line.subrange(t1 + 1, line.len() as int);
        let t2 = index_of(rest, TAB);
        if t2 == rest.len() {
            None
        } else {
            let f0 = line.subrange(0, t1);
            let f1 = rest.subrange(0, t2);
            let f2 = rest.subrange(t2 + 1, rest.len() as int);
            if index_of(f2, TAB) != f2.len() {
                None
            } else {
                match (spec_parse_u64(f0), spec_parse_u64(f1)) {
                    (Some(off), Some(id)) => if b64_dec(f2) is Some {
                        Some((off, id, f2))
                    } else {
                        None
                    },
                    _ => None,
                }
            }
        }
    }
}

/// The scan a recovery performs, as a pair: how many records form the valid
/// prefix of `content` when offsets must run `expected, expected + 1, ...`,
/// and how many bytes that prefix occupies. The scan stops at the first line
/// that is unterminated, fails to parse, or carries the wrong offset.
pub open spec fn spec_scan(content: Seq<u8>, expected: int) -> (int, int)
    decreases content.len(),
{
    let nl = index_of(content, NL);
    if !(0 <= nl < content.len()) {
        (0, 0)
    } else {
        let line = content.subrange(0, nl);
        match spec_parse_line(line) {
            Some(rec) => if rec.0 == expected {
                let tail = spec_scan(content.subrange(nl + 1, content.len() as int), expected + 1);
                (1 + tail.0, nl + 1 + tail.1)
            } else {
                (0, 0)
            },
            None => (0, 0),
        }
    }
}

/// The records of the valid prefix, in order, payloads still base64-encoded.
pub open spec fn spec_scan_records(content: Seq<u8>, expected: int) -> Seq<(u64, u64, Seq<u8>)>
    decreases content.len(),
{
    let nl = index_of(content, NL);
    if !(0 <= nl < content.len()) {
        Seq::empty()
    } else {
        let line = content.subrange(0, nl);
        match spec_parse_line(line) {
            Some(rec) => if rec.0 == expected {
                seq![rec] + spec_scan_records(
                    content.subrange(nl + 1, content.len() as int),
                    expected + 1,
                )
            } else {
                Seq::empty()
            },
            None => Seq::empty(),
        }
    }
}

/// `content` consists entirely of valid records with offsets starting at
/// `expected`.
pub open spec fn valid_log(content: Seq<u8>, expected: int) -> bool {
    spec_scan(content, expected).1 == content.len()
}

/// Basic bounds of the scan, and offset contiguity of the records it accepts:
/// the `k`-th accepted record carries offset `expected + k`.
pub proof fn lemma_scan_records(content: Seq<u8>, expected: int)
    ensures
        0 <= spec_scan(content, expected).1 <= content.len(),
        0 <= spec_scan(content, expected).0,
        spec_scan_records(content, expected).len() == spec_scan(content, expected).0,
        forall|k: int|
            0 <= k < spec_scan_records(content, expected).len() ==> #[trigger] spec_scan_records(
                content,
                expected,
            )[k].0 == expected + k,
    decreases content.len(),
{
    let nl = index_of(content, NL);
    lemma_index_of_props(content, NL);
    if nl < content.len() {
        let line = content.subrange(0, nl);
        match spec_parse_line(line) {
            Some(rec) => {
                if rec.0 == expected {
                    let rest = content.subrange(nl + 1, content.len() as int);
                    lemma_scan_records(rest, expected + 1);
                    let rs = spec_scan_records(content, expected);
                    let rs_tail = spec_scan_records(rest, expected + 1);
                    assert forall|k: int| 0 <= k < rs.len() implies #[trigger] rs[k].0 == expected
                        + k by {
                        if k > 0 {
                            assert(rs[k] == rs_tail[k - 1]);
                        }
                    }
                }
            },
            None => {},
        }
    }
}

/// What can go wrong with the log itself.
#[derive(Clone, Copy, Debug, PartialEq, Eq, Structural)]
pub enum WalError {
    /// A rotated segment is not wholly valid, its start offset does not meet
    /// the offsets recovered before it, or the offsets run past what an
    /// offset can hold.
    Corrupt,
    /// A record selected by a read has a payload that does not decode.
    BadPayload,
}

/// Index of the first occurrence of `b` in `data[start..end]`, or `end`.
fn find_byte(data: &[u8], start: usize, end: usize, b: u8) -> (r: usize)
    requires
        start <= end <= data@.len(),
    ensures
        start <= r <= end,
        r < end ==> data@[r as int] == b,
        forall|i: int| start <= i < r ==> data@[i] != b,
{
    let mut i: usize = start;
    while i < end
        invariant
            start <= i <= end <= data@.len(),
            forall|k: int| start <= k < i ==> data@[k] != b,
        decreases end - i,
    {
        if data[i] == b {
            return i;
        }
        i = i + 1;
    }
    i
}

/// Parses `data[start..end]` as one record line (terminator excluded),
/// decoding the payload field to the payload's bytes.
pub fn parse_line(data: &[u8], start: usize, end: usize) -> (r: Option<(u64, u64, Vec<u8>)>)
    requires
        start <= end <= data@.len(),
    ensures
        ({
            let line = data@.subrange(start as int, end as int);
            match spec_parse_line(line) {
                Some(rec) => r matches Some(t) && t.0 == rec.0 && t.1 == rec.1 && b64_dec(rec.2)
                    == Some(t.2@),
                None => r is None,
            }
        }),
{
    let ghost line = data@.subrange(start as int, end as int);
    let t1 = find_byte(data, start, end, TAB);
    if t1 == end {
        proof {
            assert forall|i: int| 0 <= i < line.len() implies line[i] != TAB by {
                assert(line[i] == data@[start + i]);
            }
            lemma_index_of_absent(line, TAB);
        }
        return None;
    }
    proof {
        assert(line[t1 - start] == TAB);
        assert forall|i: int| 0 <= i < t1 - start implies line[i] != TAB by {
            assert(line[i] == data@[start + i]);
        }
        lemma_index_of_is(line, TAB, t1 - start);
    }
    let ghost rest = line.subrange(t1 - start + 1, line.len() as int);
    let t2 = find_byte(data, t1 + 1, end, TAB);
    if t2 == end {
        proof {
            assert forall|i: int| 0 <= i < rest.len() implies rest[i] != TAB by {
                assert(rest[i] == data@[t1 + 1 + i]);
            }
            lemma_index_of_absent(rest, TAB);
        }
        return None;
    }
    proof {
        assert(rest[t2 - t1 - 1] == data@[t2 as int]);
        assert forall|i: int| 0 <= i < t2 - t1 - 1 implies rest[i] != TAB by {
            assert(rest[i] == data@[t1 + 1 + i]);
        }
        lemma_index_of_is(rest, TAB, t2 - t1 - 1);
    }
    let ghost f2 = rest.subrange(t2 - t1, rest.len() as int);
    let t3 = find_byte(data, t2 + 1, end, TAB);
    if t3 != end {
        proof {
            assert(f2[t3 - t2 - 1] == data@[t3 as int]);
            lemma_index_of_props(f2, TAB);
            if index_of(f2, TAB) == f2.len() {
                assert(f2[t3 - t2 - 1] != TAB);
            }
        }
        return None;
    }
    proof {
        assert forall|i: int| 0 <= i < f2.len() implies f2[i] != TAB by {
            assert(f2[i] == data@[t2 + 1 + i]);
        }
        lemma_index_of_absent(f2, TAB);
        assert(line.subrange(0, t1 - start) =~= data@.subrange(start as int, t1 as int));
        assert(rest.subrange(0, t2 - t1 - 1) =~= data@.subrange(t1 + 1, t2 as int));
        assert(f2 =~= data@.subrange(t2 + 1, end as int));
    }
    let off = match parse_u64_bytes(data, start, t1) {
        Some(v) => v,
        None => {
            return None;
        },
    };
    let id = match parse_u64_bytes(data, t1 + 1, t2) {
        Some(v) => v,
        None => {
            return None;
        },
    };
    match b64_decode(&data[t2 + 1..end]) {
        Some(payload) => Some((off, id, payload)),
        None => None,
    }
}

/// Scans `data` as the recovery of one segment does: counts the records of
/// the longest valid prefix whose offsets run `expected, expected + 1, ...`,
/// and reports the offset after them together with the prefix's byte length.
/// Fails only where the offsets would run past what a `u64` can hold.
pub fn scan_log(data: &[u8], expected: u64) -> (r: Result<(u64, usize), WalError>)
    ensures
        match r {
            Ok(t) => {
                &&& t.0 == expected as int + spec_scan(data@, expected as int).0
                &&& t.1 == spec_scan(data@, expected as int).1
            },
            Err(e) => {
                &&& e == WalError::Corrupt
                &&& expected as int + spec_scan(data@, expected as int).0 > u64::MAX
            },
        },
{
    let len = data.len();
    let mut pos: usize = 0;
    let mut cur: u64 = expected;
    proof {
        assert(data@.subrange(0, len as int) =~= data@);
    }
    loop
        invariant
            pos <= len == data@.len(),
            expected <= cur,
            spec_scan(data@, expected as int).0 == cur - expected + spec_scan(
                data@.subrange(pos as int, len as int),
                cur as int,
            ).0,
            spec_scan(data@, expected as int).1 == pos + spec_scan(
                data@.subrange(pos as int, len as int),
                cur as int,
            ).1,
        decreases len - pos,
    {
        let ghost rest = data@.subrange(pos as int, len as int);
        let nl = find_byte(data, pos, len, NL);
        if nl == len {
            proof {
                assert forall|i: int| 0 <= i < rest.len() implies rest[i] != NL by {
                    assert(rest[i] == data@[pos + i]);
                }
                lemma_index_of_absent(rest, NL);
            }
            return Ok((cur, pos));
        }
        proof {
            assert(rest[nl - pos] == data@[nl as int]);
            assert forall|i: int| 0 <= i < nl - pos implies rest[i] != NL by {
                assert(rest[i] == data@[pos + i]);
            }
            lemma_index_of_is(rest, NL, nl - pos);
            assert(rest.subrange(0, nl - pos) =~= data@.subrange(pos as int, nl as int));
        }
        match parse_line(data, pos, nl) {
            None => {
                return Ok((cur, pos));
            },
            Some(t) => {
                if t.0 != cur {
                    return Ok((cur, pos));
                }
                proof {
                    assert(rest.subrange(nl - pos + 1, rest.len() as int) =~= data@.subrange(
                        nl + 1,
                        len as int,
                    ));
                    lemma_scan_records(data@.subrange(nl + 1, len as int), cur as int + 1);
                }
                if cur == u64::MAX {
                    return Err(WalError::Corrupt);
                }
                cur = cur + 1;
                pos = nl + 1;
            },
        }
    }
}

/// One rotated segment handed to recovery: the start offset embedded in its
/// file name, and its byte content.
pub struct SegmentData {
    pub start: u64,
    pub data: Vec<u8>,
}

impl View for SegmentData {
    type V = (u64, Seq<u8>);

    open spec fn view(&self) -> (u64, Seq<u8>) {
        (self.start, self.data@)
    }
}

impl DeepView for SegmentData {
    type V = (u64, Seq<u8>);

    open spec fn deep_view(&self) -> (u64, Seq<u8>) {
        self.view()
    }
}

/// The rotated segments, in the order given, are each wholly valid, and each
/// one's start offset equals the offset reached by those before it.
pub open spec fn segs_valid(segs: Seq<(u64, Seq<u8>)>, expected: int) -> bool
    decreases segs.len(),
{
    if segs.len() == 0 {
        true
    } else {
        &&& segs[0].0 == expected
        &&& valid_log(segs[0].1, expected)
        &&& segs_valid(segs.drop_first(), expected + spec_scan(segs[0].1, expected).0)
    }
}

/// The offset reached after all the given segments' records.
pub open spec fn segs_next(segs: Seq<(u64, Seq<u8>)>, expected: int) -> int
    decreases segs.len(),
{
    if segs.len() == 0 {
        expected
    } else {
        segs_next(segs.drop_first(), expected + spec_scan(segs[0].1, expected).0)
    }
}

/// All the records the given segments hold, in order.
pub open spec fn segs_records(segs: Seq<(u64, Seq<u8>)>, expected: int) -> Seq<(u64, u64, Seq<u8>)>
    decreases segs.len(),
{
    if segs.len() == 0 {
        Seq::empty()
    } else {
        spec_scan_records(segs[0].1, expected) + segs_records(
            segs.drop_first(),
            expected + spec_scan(segs[0].1, expected).0,
        )
    }
}

/// Everything a recovery finds: rotated segments' records, then the valid
/// prefix of the active segment.
pub open spec fn wal_records(segs: Seq<(u64, Seq<u8>)>, active: Seq<u8>) -> Seq<
    (u64, u64, Seq<u8>),
> {
    segs_records(segs, 0) + spec_scan_records(active, segs_next(segs, 0))
}

/// Valid segments hold exactly the records `expected .. segs_next`, in offset
/// order.
pub proof fn lemma_segs_records(segs: Seq<(u64, Seq<u8>)>, expected: int)
    requires
        segs_valid(segs, expected),
    ensures
        segs_next(segs, expected) >= expected,
        segs_records(segs, expected).len() == segs_next(segs, expected) - expected,
        forall|k: int|
            0 <= k < segs_records(segs, expected).len() ==> #[trigger] segs_records(
                segs,
                expected,
            )[k].0 == expected + k,
    decreases segs.len(),
{
    if segs.len() > 0 {
        let head = spec_scan_records(segs[0].1, expected);
        let e1 = expected + spec_scan(segs[0].1, expected).0;
        lemma_scan_records(segs[0].1, expected);
        lemma_segs_records(segs.drop_first(), e1);
        let rs = segs_records(segs, expected);
        let tail = segs_records(segs.drop_first(), e1);
        assert forall|k: int| 0 <= k < rs.len() implies #[trigger] rs[k].0 == expected + k by {
            if k < head.len() {
                assert(rs[k] == head[k]);
            } else {
                assert(rs[k] == tail[k - head.len()]);
            }
        }
    }
}

/// A prefix of valid segments is valid, and the segment after a prefix starts
/// where the prefix ends.
pub proof fn lemma_segs_valid_prefix(segs: Seq<(u64, Seq<u8>)>, expected: int, i: int)
    requires
        segs_valid(segs, expected),
        0 <= i <= segs.len(),
    ensures
        segs_valid(segs.take(i), expected),
        segs_next(segs, expected) >= segs_next(segs.take(i), expected),
        i < segs.len() ==> segs[i].0 == segs_next(segs.take(i), expected) && valid_log(
            segs[i].1,
            segs_next(segs.take(i), expected),
        ),
    decreases segs.len(),
{
    lemma_segs_records(segs, expected);
    if i == 0 {
        assert(segs.take(0) =~= Seq::empty());
        if segs.len() > 0 {
            lemma_scan_records(segs[0].1, expected);
            lemma_segs_records(segs.drop_first(), expected + spec_scan(segs[0].1, expected).0);
        }
    } else {
        let e1 = expected + spec_scan(segs[0].1, expected).0;
        assert(segs.take(i).drop_first() =~= segs.drop_first().take(i - 1));
        lemma_segs_valid_prefix(segs.drop_first(), e1, i - 1);
        assert(segs.take(i)[0] == segs[0]);
        if i < segs.len() {
            assert(segs.drop_first()[i - 1] == segs[i]);
        }
    }
}

/// Extending a run of segments by one more.
pub proof fn lemma_segs_push(segs: Seq<(u64, Seq<u8>)>, s: (u64, Seq<u8>), expected: int)
    ensures
        segs_valid(segs.push(s), expected) == (segs_valid(segs, expected) && s.0 == segs_next(
            segs,
            expected,
        ) && valid_log(s.1, segs_next(segs, expected))),
        segs_next(segs.push(s), expected) == segs_next(segs, expected) + spec_scan(
            s.1,
            segs_next(segs, expected),
        ).0,
    decreases segs.len(),
{
    let p = segs.push(s);
    if segs.len() == 0 {
        assert(p.drop_first() =~= Seq::<(u64, Seq<u8>)>::empty());
        assert(p[0] == s);
        let e1 = expected + spec_scan(p[0].1, expected).0;
        assert(segs_valid(p.drop_first(), e1));
        assert(segs_next(p.drop_first(), e1) == e1);
        assert(segs_next(segs, expected) == expected);
        assert(segs_valid(p, expected) == (p[0].0 == expected && valid_log(p[0].1, expected)));
    } else {
        assert(p.drop_first() =~= segs.drop_first().push(s));
        assert(p[0] == segs[0]);
        let e1 = expected + spec_scan(segs[0].1, expected).0;
        lemma_segs_push(segs.drop_first(), s, e1);
        assert(segs_valid(p, expected) == (p[0].0 == expected && valid_log(p[0].1, expected)
            && segs_valid(p.drop_first(), e1)));
        assert(segs_next(p, expected) == segs_next(p.drop_first(), e1));
    }
}

/// What a recovery establishes before the log accepts appends again.
pub struct Recovery {
    /// The offset the next append will receive.
    pub next_offset: u64,
    /// The offset of the first record of the active segment.
    pub segment_start_offset: u64,
    /// How many bytes of the active segment hold valid records; everything
    /// after them is a torn tail to be truncated away.
    pub active_valid_len: usize,
}

/// Recovers a topic's log from its rotated segments (in ascending file-name
/// order, as listed) and the content of its active segment. Rotated segments
/// must be wholly valid and contiguous from offset 0; the active segment's
/// torn tail, if any, is measured so the caller can truncate it. On success
/// the records found tile the offsets `0 .. next_offset` exactly, with no gap
/// and no duplicate.
pub fn recover(rotated: &Vec<SegmentData>, active: &[u8]) -> (r: Result<Recovery, WalError>)
    ensures
        ({
            let segs = rotated.deep_view();
            match r {
                Ok(rec) => {
                    &&& segs_valid(segs, 0)
                    &&& rec.segment_start_offset == segs_next(segs, 0)
                    &&& rec.next_offset == segs_next(segs, 0) + spec_scan(
                        active@,
                        segs_next(segs, 0),
                    ).0
                    &&& rec.active_valid_len == spec_scan(active@, segs_next(segs, 0)).1
                    &&& rec.segment_start_offset <= rec.next_offset
                    &&& rec.active_valid_len <= active@.len()
                    &&& wal_records(segs, active@).len() == rec.next_offset
                    &&& forall|k: int|
                        0 <= k < rec.next_offset ==> #[trigger] wal_records(segs, active@)[k].0
                            == k
                },
                Err(e) => {
                    &&& e == WalError::Corrupt
                    &&& !(segs_valid(segs, 0) && segs_next(segs, 0) + spec_scan(
                        active@,
                        segs_next(segs, 0),
                    ).0 <= u64::MAX)
                },
            }
        }),
{
    let ghost segs = rotated.deep_view();
    let mut expected: u64 = 0;
    let mut i: usize = 0;
    proof {
        assert(segs.take(0) =~= Seq::empty());
    }
    while i < rotated.len()
        invariant
            i <= rotated.len(),
            segs == rotated.deep_view(),
            segs.len() == rotated.len(),
            segs_valid(segs.take(i as int), 0),
            expected == segs_next(segs.take(i as int), 0),
        decreases rotated.len() - i,
    {
        let seg = &rotated[i];
        proof {
            assert(segs[i as int] == (seg.start, seg.data@));
        }
        if seg.start != expected {
            proof {
                if segs_valid(segs, 0) {
                    lemma_segs_valid_prefix(segs, 0, i as int);
                }
            }
            return Err(WalError::Corrupt);
        }
        match scan_log(seg.data.as_slice(), expected) {
            Err(_) => {
                proof {
                    if segs_valid(segs, 0) {
                        lemma_segs_valid_prefix(segs, 0, i as int);
                        lemma_segs_push(segs.take(i as int), segs[i as int], 0);
                        assert(segs.take(i as int).push(segs[i as int]) =~= segs.take(i + 1));
                        lemma_segs_valid_prefix(segs, 0, i + 1);
                        lemma_scan_records(active@, segs_next(segs, 0));
                    }
                }
                return Err(WalError::Corrupt);
            },
            Ok((next, valid_len)) => {
                if valid_len != seg.data.len() {
                    proof {
                        if segs_valid(segs, 0) {
                            lemma_segs_valid_prefix(segs, 0, i as int);
                        }
                    }
                    return Err(WalError::Corrupt);
                }
                proof {
                    lemma_segs_push(segs.take(i as int), segs[i as int], 0);
                    assert(segs.take(i as int).push(segs[i as int]) =~= segs.take(i + 1));
                }
                expected = next;
            },
        }
        i = i + 1;
    }
    proof {
        assert(segs.take(segs.len() as int) =~= segs);
    }
    match scan_log(active, expected) {
        Err(_) => {
            proof {
                lemma_scan_records(active@, expected as int);
            }
            Err(WalError::Corrupt)
        },
        Ok((next, valid_len)) => {
            proof {
                lemma_segs_records(segs, 0);
                lemma_scan_records(active@, expected as int);
                let all = wal_records(segs, active@);
                assert forall|k: int| 0 <= k < next implies #[trigger] all[k].0 == k by {
                    let head = segs_records(segs, 0);
                    if k < head.len() {
                        assert(all[k] == head[k]);
                    } else {
                        assert(all[k] == spec_scan_records(active@, expected as int)[k
                            - head.len()]);
                    }
                }
            }
            Ok(
                Recovery {
                    next_offset: next,
                    segment_start_offset: expected,
                    active_valid_len: valid_len,
                },
            )
        },
    }
}

/// The line the log writes for a record: offset, id, base64 payload,
/// tab-separated, newline-terminated.
pub open spec fn spec_record_line(off: u64, id: u64, b64: Seq<u8>) -> Seq<u8> {
    dec_digits(off as nat) + seq![TAB] + dec_digits(id as nat) + seq![TAB] + b64 + seq![NL]
}

/// A record line parses back to exactly the record it was written for, and
/// holds no newline before its terminator.
pub proof fn lemma_parse_record_line(off: u64, id: u64, b64: Seq<u8>)
    requires
        forall|i: int| 0 <= i < b64.len() ==> b64[i] != TAB && b64[i] != NL,
        b64_dec(b64) is Some,
    ensures
        ({
            let line = spec_record_line(off, id, b64);
            &&& line.len() >= 5
            &&& line.last() == NL
            &&& forall|i: int| 0 <= i < line.len() - 1 ==> line[i] != NL
            &&& spec_parse_line(line.drop_last()) == Some((off, id, b64))
        }),
{
    lemma_parse_dec_digits(off);
    lemma_parse_dec_digits(id);
    crate::numeric::lemma_dec_digits_val(off as nat);
    crate::numeric::lemma_dec_digits_val(id as nat);
    let a = dec_digits(off as nat);
    let b = dec_digits(id as nat);
    let line = spec_record_line(off, id, b64);
    let body = line.drop_last();
    assert(body =~= a + seq![TAB] + b + seq![TAB] + b64);
    assert forall|i: int| 0 <= i < line.len() - 1 implies line[i] != NL by {
        if i < a.len() {
            assert(is_digit_byte(a[i]));
            assert(line[i] == a[i]);
        } else if i == a.len() {
            assert(line[i] == TAB);
        } else if i < a.len() + 1 + b.len() {
            assert(line[i] == b[i - a.len() - 1]);
            assert(is_digit_byte(b[i - a.len() - 1]));
        } else if i == a.len() + 1 + b.len() {
            assert(line[i] == TAB);
        } else {
            assert(line[i] == b64[i - a.len() - b.len() - 2]);
        }
    }
    // first tab
    assert(body[a.len() as int] == TAB);
    assert forall|i: int| 0 <= i < a.len() implies body[i] != TAB by {
        assert(body[i] == a[i]);
        assert(is_digit_byte(a[i]));
    }
    lemma_index_of_is(body, TAB, a.len() as int);
    let rest = body.subrange(a.len() as int + 1, body.len() as int);
    assert(rest =~= b + seq![TAB] + b64);
    // second tab
    assert(rest[b.len() as int] == TAB);
    assert forall|i: int| 0 <= i < b.len() implies rest[i] != TAB by {
        assert(rest[i] == b[i]);
        assert(is_digit_byte(b[i]));
    }
    lemma_index_of_is(rest, TAB, b.len() as int);
    let f2 = rest.subrange(b.len() as int + 1, rest.len() as int);
    assert(f2 =~= b64);
    lemma_index_of_absent(f2, TAB);
    assert(body.subrange(0, a.len() as int) =~= a);
    assert(rest.subrange(0, b.len() as int) =~= b);
}

/// Appending one whole record line with the next offset to a valid log keeps
/// it valid and adds exactly that record: an acknowledged append is found
/// again, after any restart, by the recovery scan.
pub proof fn lemma_scan_append(content: Seq<u8>, expected: int, off: u64, id: u64, b64: Seq<u8>)
    requires
        valid_log(content, expected),
        off as int == expected + spec_scan(content, expected).0,
        forall|i: int| 0 <= i < b64.len() ==> b64[i] != TAB && b64[i] != NL,
        b64_dec(b64) is Some,
    ensures
        ({
            let new = content + spec_record_line(off, id, b64);
            &&& valid_log(new, expected)
            &&& spec_scan(new, expected).0 == spec_scan(content, expected).0 + 1
            &&& spec_scan_records(new, expected) == spec_scan_records(content, expected).push(
                (off, id, b64),
            )
        }),
    decreases content.len(),
{
    let line = spec_record_line(off, id, b64);
    let new = content + line;
    lemma_parse_record_line(off, id, b64);
    lemma_scan_records(content, expected);
    if content.len() == 0 {
        assert(new =~= line);
        assert(new[new.len() - 1] == NL);
        lemma_index_of_is(new, NL, new.len() - 1);
        assert(new.subrange(0, new.len() - 1) =~= line.drop_last());
        assert(off == expected);
        let after = new.subrange(new.len() as int, new.len() as int);
        assert(after =~= Seq::<u8>::empty());
        assert(spec_scan(after, expected + 1) == (0int, 0int));
        assert(spec_scan_records(after, expected + 1) =~= Seq::<(u64, u64, Seq<u8>)>::empty());
        assert(spec_scan(new, expected).1 == new.len());
        assert(spec_scan_records(new, expected) =~= spec_scan_records(content, expected).push(
            (off, id, b64),
        ));
    } else {
        let nl = index_of(content, NL);
        lemma_index_of_props(content, NL);
        assert(nl < content.len());
        assert(new[nl] == content[nl]);
        assert forall|i: int| 0 <= i < nl implies new[i] != NL by {
            assert(new[i] == content[i]);
        }
        lemma_index_of_is(new, NL, nl);
        assert(new.subrange(0, nl) =~= content.subrange(0, nl));
        let rest_old = content.subrange(nl + 1, content.len() as int);
        let rest_new = new.subrange(nl + 1, new.len() as int);
        assert(rest_new =~= rest_old + line);
        let rec = spec_parse_line(content.subrange(0, nl)).unwrap();
        assert(rec.0 == expected);
        assert(spec_scan(content, expected).1 == nl + 1 + spec_scan(rest_old, expected + 1).1);
        assert(valid_log(rest_old, expected + 1));
        lemma_scan_append(rest_old, expected + 1, off, id, b64);
        assert(spec_scan_records(new, expected) =~= spec_scan_records(content, expected).push(
            (off, id, b64),
        ));
    }
}

/// An acknowledged record survives restart. Acknowledgement follows the
/// fsync of one whole record line carrying the next offset; recovering the
/// log with that line in place finds every record found before, and the new
/// record after them.
pub proof fn lemma_acked_append_survives_restart(
    segs: Seq<(u64, Seq<u8>)>,
    active: Seq<u8>,
    off: u64,
    id: u64,
    b64: Seq<u8>,
)
    requires
        segs_valid(segs, 0),
        valid_log(active, segs_next(segs, 0)),
        off as int == segs_next(segs, 0) + spec_scan(active, segs_next(segs, 0)).0,
        forall|i: int| 0 <= i < b64.len() ==> b64[i] != TAB && b64[i] != NL,
        b64_dec(b64) is Some,
    ensures
        valid_log(active + spec_record_line(off, id, b64), segs_next(segs, 0)),
        wal_records(segs, active + spec_record_line(off, id, b64)) == wal_records(
            segs,
            active,
        ).push((off, id, b64)),
{
    let e = segs_next(segs, 0);
    lemma_scan_append(active, e, off, id, b64);
    assert(wal_records(segs, active + spec_record_line(off, id, b64)) =~= wal_records(
        segs,
        active,
    ).push((off, id, b64)));
}

/// A torn tail holding no newline is no record: the recovery scan of a valid
/// log followed by such a tail keeps every record, and measures the valid
/// prefix as ending exactly where the tail begins.
pub proof fn lemma_scan_torn_tail(content: Seq<u8>, expected: int, tail: Seq<u8>)
    requires
        valid_log(content, expected),
        forall|i: int| 0 <= i < tail.len() ==> tail[i] != NL,
    ensures
        spec_scan(content + tail, expected).0 == spec_scan(content, expected).0,
        spec_scan(content + tail, expected).1 == content.len(),
        spec_scan_records(content + tail, expected) == spec_scan_records(content, expected),
    decreases content.len(),
{
    let new = content + tail;
    if content.len() == 0 {
        assert(new =~= tail);
        lemma_index_of_absent(tail, NL);
        assert(spec_scan_records(new, expected) =~= spec_scan_records(content, expected));
    } else {
        let nl = index_of(content, NL);
        lemma_index_of_props(content, NL);
        if nl == content.len() {
            assert(spec_scan(content, expected).1 == 0);
            assert(false);
        }
        assert(new[nl] == content[nl]);
        assert forall|i: int| 0 <= i < nl implies new[i] != NL by {
            assert(new[i] == content[i]);
        }
        lemma_index_of_is(new, NL, nl);
        assert(new.subrange(0, nl) =~= content.subrange(0, nl));
        let rest_old = content.subrange(nl + 1, content.len() as int);
        let rest_new = new.subrange(nl + 1, new.len() as int);
        assert(rest_new =~= rest_old + tail);
        let rec = spec_parse_line(content.subrange(0, nl)).unwrap();
        assert(rec.0 == expected);
        assert(valid_log(rest_old, expected + 1));
        lemma_scan_torn_tail(rest_old, expected + 1, tail);
        assert(spec_scan_records(new, expected) =~= spec_scan_records(content, expected));
    }
}

/// Builds the on-disk line for one record: decimal offset, tab, decimal id,
/// tab, base64 of the payload's UTF-8 bytes, newline.
pub fn encode_record_line(offset: u64, id: u64, payload: &str) -> (line: Vec<u8>)
    requires
        payload.spec_bytes().len() < 0x4000_0000,
    ensures
        ({
            let b64 = b64_enc(payload.spec_bytes());
            &&& line@ == spec_record_line(offset, id, b64)
            &&& b64_dec(b64) == Some(payload.spec_bytes())
            &&& forall|i: int| 0 <= i < b64.len() ==> is_b64_byte(b64[i])
            &&& spec_parse_line(line@.drop_last()) == Some((offset, id, b64))
            &&& line@.last() == NL
            &&& forall|i: int| 0 <= i < line@.len() - 1 ==> line@[i] != NL
        }),
{
    let mut line: Vec<u8> = Vec::new();
    push_dec_bytes(&mut line, offset);
    line.push(TAB);
    push_dec_bytes(&mut line, id);
    line.push(TAB);
    let mut b64 = b64_encode(payload.as_bytes());
    proof {
        assert forall|i: int|
            0 <= i < b64_enc(payload.spec_bytes()).len() implies b64_enc(payload.spec_bytes())[i]
            != TAB && b64_enc(payload.spec_bytes())[i] != NL by {
            assert(is_b64_byte(b64_enc(payload.spec_bytes())[i]));
        }
        lemma_parse_record_line(offset, id, b64_enc(payload.spec_bytes()));
    }
    line.append(&mut b64);
    line.push(NL);
    proof {
        assert(line@ =~= spec_record_line(offset, id, b64_enc(payload.spec_bytes())));
    }
    line
}

/// The logical state of one topic's write-ahead log. The offsets below are
/// the log's bookkeeping; the file handles live with the caller, which feeds
/// every state change through these methods.
pub struct Wal {
    /// The offset the next append will receive.
    pub next_offset: u64,
    /// The offset of the first record in the active segment.
    pub segment_start_offset: u64,
}

impl Wal {
    /// The bookkeeping invariant: the active segment cannot start past the
    /// next offset.
    pub open spec fn wf(self) -> bool {
        self.segment_start_offset <= self.next_offset
    }

    /// Opens the log at the state a recovery established.
    pub fn from_recovery(r: &Recovery) -> (w: Wal)
        requires
            r.segment_start_offset <= r.next_offset,
        ensures
            w.next_offset == r.next_offset,
            w.segment_start_offset == r.segment_start_offset,
            w.wf(),
    {
        Wal { next_offset: r.next_offset, segment_start_offset: r.segment_start_offset }
    }

    /// The line to write for the next append: the record takes the offset
    /// `self.next_offset`. The caller writes and fsyncs it, then calls
    /// `commit_append`; nothing here changes until the write succeeded.
    pub fn append_line(&self, id: u64, payload: &str) -> (line: Vec<u8>)
        requires
            payload.spec_bytes().len() < 0x4000_0000,
        ensures
            ({
                let b64 = b64_enc(payload.spec_bytes());
                &&& line@ == spec_record_line(self.next_offset, id, b64)
                &&& b64_dec(b64) == Some(payload.spec_bytes())
                &&& forall|i: int| 0 <= i < b64.len() ==> is_b64_byte(b64[i])
            }),
    {
        encode_record_line(self.next_offset, id, payload)
    }

    /// Records that the line of `append_line` has been durably written.
    pub fn commit_append(&mut self)
        requires
            old(self).wf(),
            old(self).next_offset < u64::MAX,
        ensures
            final(self).next_offset == old(self).next_offset + 1,
            final(self).segment_start_offset == old(self).segment_start_offset,
            final(self).wf(),
    {
        self.next_offset = self.next_offset + 1;
    }

    /// Whether the active segment, at the given size in bytes, must be
    /// rotated before the next append.
    pub fn should_rotate(&self, active_size: u64) -> (r: bool)
        ensures
            r == (active_size >= SEGMENT_MAX_BYTES),
    {
        active_size >= SEGMENT_MAX_BYTES
    }

    /// The name the active segment takes when it is rotated now.
    pub fn rotated_file_name(&self) -> (s: String)
        ensures
            s@ == spec_segment_file_name(self.segment_start_offset),
    {
        segment_file_name(self.segment_start_offset)
    }

    /// Records that the active segment has been renamed away and a fresh one
    /// opened: the new active segment starts at the next offset.
    pub fn complete_rotation(&mut self)
        ensures
            final(self).next_offset == old(self).next_offset,
            final(self).segment_start_offset == old(self).next_offset,
            final(self).wf(),
    {
        self.segment_start_offset = self.next_offset;
    }
}

/// One record as a read returns it: offset, id, and the payload decoded back
/// to text.
pub struct WalRecord {
    pub offset: u64,
    pub id: u64,
    pub payload: String,
}

/// What a read makes of a stored payload field: base64-decode it, then take
/// the bytes as UTF-8 text; `None` where either step fails.
pub open spec fn spec_decode_payload(b64: Seq<u8>) -> Option<Seq<char>> {
    match b64_dec(b64) {
        Some(pb) => if valid_utf8(pb) {
            Some(decode_utf8(pb))
        } else {
            None
        },
        None => None,
    }
}

/// A returned record against the stored record it came from.
pub open spec fn record_matches(rec: WalRecord, c: (u64, u64, Seq<u8>)) -> bool {
    &&& rec.offset == c.0
    &&& rec.id == c.1
    &&& Some(rec.payload@) == spec_decode_payload(c.2)
}

/// Every parseable record line of `content`, in order, lines that do not
/// parse skipped: what a read considers, as opposed to the stricter recovery
/// scan.
pub open spec fn spec_read_records(content: Seq<u8>) -> Seq<(u64, u64, Seq<u8>)>
    decreases content.len(),
{
    let nl = index_of(content, NL);
    if !(0 <= nl < content.len()) {
        Seq::empty()
    } else {
        let line = content.subrange(0, nl);
        let rest = spec_read_records(content.subrange(nl + 1, content.len() as int));
        match spec_parse_line(line) {
            Some(rec) => seq![rec] + rest,
            None => rest,
        }
    }
}

/// The records of a run of segments, in the order given.
pub open spec fn segs_read_records(contents: Seq<Seq<u8>>) -> Seq<(u64, u64, Seq<u8>)>
    decreases contents.len(),
{
    if contents.len() == 0 {
        Seq::empty()
    } else {
        spec_read_records(contents[0]) + segs_read_records(contents.drop_first())
    }
}

/// The records at or past the requested offset, in order.
pub open spec fn filter_from(s: Seq<(u64, u64, Seq<u8>)>, from: u64) -> Seq<(u64, u64, Seq<u8>)>
    decreases s.len(),
{
    if s.len() == 0 {
        Seq::empty()
    } else {
        (if s[0].0 >= from {
            seq![s[0]]
        } else {
            Seq::empty()
        }) + filter_from(s.drop_first(), from)
    }
}

pub proof fn lemma_filter_from_concat(a: Seq<(u64, u64, Seq<u8>)>, b: Seq<(u64, u64, Seq<u8>)>, from: u64)
    ensures
        filter_from(a + b, from) == filter_from(a, from) + filter_from(b, from),
    decreases a.len(),
{
    if a.len() == 0 {
        assert(a + b =~= b);
        assert(filter_from(a, from) =~= Seq::<(u64, u64, Seq<u8>)>::empty());
        assert(filter_from(a, from) + filter_from(b, from) =~= filter_from(b, from));
    } else {
        assert((a + b).drop_first() =~= a.drop_first() + b);
        assert((a + b)[0] == a[0]);
        lemma_filter_from_concat(a.drop_first(), b, from);
        assert(filter_from(a + b, from) =~= filter_from(a, from) + filter_from(b, from));
    }
}

pub proof fn lemma_filter_from_push(s: Seq<(u64, u64, Seq<u8>)>, c: (u64, u64, Seq<u8>), from: u64)
    ensures
        c.0 >= from ==> filter_from(s.push(c), from) == filter_from(s, from).push(c),
        c.0 < from ==> filter_from(s.push(c), from) == filter_from(s, from),
{
    assert(s.push(c) =~= s + seq![c]);
    lemma_filter_from_concat(s, seq![c], from);
    assert(seq![c].drop_first() =~= Seq::<(u64, u64, Seq<u8>)>::empty());
    assert(filter_from(Seq::<(u64, u64, Seq<u8>)>::empty(), from) =~= Seq::<
        (u64, u64, Seq<u8>),
    >::empty());
    assert(filter_from(seq![c].drop_first(), from) =~= Seq::<(u64, u64, Seq<u8>)>::empty());
    assert(seq![c][0] == c);
    if c.0 >= from {
        assert(filter_from(seq![c], from) =~= seq![c]);
        assert(filter_from(s, from) + seq![c] =~= filter_from(s, from).push(c));
    } else {
        assert(filter_from(seq![c], from) =~= Seq::<(u64, u64, Seq<u8>)>::empty());
        assert(filter_from(s, from) + filter_from(seq![c], from) =~= filter_from(s, from));
    }
}

/// Reads one segment's records into `out`, continuing a read that has
/// already considered the records `seen`. Stops as soon as `out` holds
/// `limit` records; the first returned flag says whether it did.
fn read_segment(
    data: &[u8],
    from: u64,
    limit: usize,
    out: &mut Vec<WalRecord>,
    Ghost(seen): Ghost<Seq<(u64, u64, Seq<u8>)>>,
) -> (r: Result<(bool, Ghost<Seq<(u64, u64, Seq<u8>)>>), WalError>)
    requires
        limit > 0,
        old(out)@.len() == filter_from(seen, from).len(),
        old(out)@.len() < limit,
        forall|k: int|
            0 <= k < old(out)@.len() ==> record_matches(old(out)@[k], filter_from(seen, from)[k]),
    ensures
        ({
            let seen2 = seen + spec_read_records(data@);
            let flt = filter_from(seen2, from);
            match r {
                Ok((done, s2)) => {
                    &&& s2@ == seen2
                    &&& (!done ==> final(out)@.len() == flt.len() && flt.len() < limit)
                    &&& (done ==> final(out)@.len() == limit && flt.len() >= limit)
                    &&& forall|k: int|
                        0 <= k < final(out)@.len() ==> record_matches(final(out)@[k], flt[k])
                },
                Err(e) => {
                    &&& e == WalError::BadPayload
                    &&& exists|k: int|
                        0 <= k < limit && k < flt.len() && spec_decode_payload(#[trigger] flt[k].2)
                            is None
                },
            }
        }),
{
    let len = data.len();
    let mut pos: usize = 0;
    let ghost mut cur = seen;
    proof {
        assert(data@.subrange(0, len as int) =~= data@);
    }
    loop
        invariant
            pos <= len == data@.len(),
            limit > 0,
            seen + spec_read_records(data@) == cur + spec_read_records(
                data@.subrange(pos as int, len as int),
            ),
            out@.len() == filter_from(cur, from).len(),
            out@.len() < limit,
            forall|k: int|
                0 <= k < out@.len() ==> record_matches(out@[k], filter_from(cur, from)[k]),
        decreases len - pos,
    {
        let ghost rest = data@.subrange(pos as int, len as int);
        let nl = find_byte(data, pos, len, NL);
        if nl == len {
            proof {
                assert forall|i: int| 0 <= i < rest.len() implies rest[i] != NL by {
                    assert(rest[i] == data@[pos + i]);
                }
                lemma_index_of_absent(rest, NL);
                assert(spec_read_records(rest) =~= Seq::<(u64, u64, Seq<u8>)>::empty());
                assert(cur + spec_read_records(rest) =~= cur);
            }
            return Ok((false, Ghost(seen + spec_read_records(data@))));
        }
        proof {
            assert(rest[nl - pos] == data@[nl as int]);
            assert forall|i: int| 0 <= i < nl - pos implies rest[i] != NL by {
                assert(rest[i] == data@[pos + i]);
            }
            lemma_index_of_is(rest, NL, nl - pos);
            assert(rest.subrange(0, nl - pos) =~= data@.subrange(pos as int, nl as int));
            assert(rest.subrange(nl - pos + 1, rest.len() as int) =~= data@.subrange(
                nl + 1,
                len as int,
            ));
        }
        match parse_line(data, pos, nl) {
            None => {
                pos = nl + 1;
            },
            Some(t) => {
                let ghost rec = spec_parse_line(data@.subrange(pos as int, nl as int)).unwrap();
                proof {
                    assert(spec_read_records(rest) == seq![rec] + spec_read_records(
                        data@.subrange(nl + 1, len as int),
                    ));
                    lemma_filter_from_push(cur, rec, from);
                    assert(cur.push(rec) + spec_read_records(data@.subrange(nl + 1, len as int))
                        =~= cur + spec_read_records(rest));
                }
                if t.0 < from {
                    proof {
                        cur = cur.push(rec);
                    }
                    pos = nl + 1;
                } else {
                    match string_from_utf8(t.2) {
                        Some(payload) => {
                            out.push(WalRecord { offset: t.0, id: t.1, payload });
                            proof {
                                cur = cur.push(rec);
                            }
                            pos = nl + 1;
                            if out.len() == limit {
                                proof {
                                    let seen2 = seen + spec_read_records(data@);
                                    let tail_recs = spec_read_records(
                                        data@.subrange(pos as int, len as int),
                                    );
                                    assert(seen2 =~= cur + tail_recs);
                                    lemma_filter_from_concat(cur, tail_recs, from);
                                    assert forall|k: int|
                                        0 <= k < out@.len() implies record_matches(
                                        out@[k],
                                        filter_from(seen2, from)[k],
                                    ) by {
                                        assert(filter_from(seen2, from)[k] == filter_from(
                                            cur,
                                            from,
                                        )[k]);
                                    }
                                }
                                return Ok((true, Ghost(seen + spec_read_records(data@))));
                            }
                        },
                        None => {
                            proof {
                                let seen2 = seen + spec_read_records(data@);
                                let tail_recs = spec_read_records(
                                    data@.subrange(nl + 1, len as int),
                                );
                                assert(seen2 =~= cur.push(rec) + tail_recs);
                                lemma_filter_from_concat(cur.push(rec), tail_recs, from);
                                let kw = filter_from(cur, from).len() as int;
                                assert(filter_from(cur.push(rec), from) == filter_from(
                                    cur,
                                    from,
                                ).push(rec));
                                assert(filter_from(seen2, from)[kw] == rec);
                                assert(b64_dec(rec.2) == Some(t.2@));
                                assert(spec_decode_payload(rec.2) is None);
                            }
                            return Err(WalError::BadPayload);
                        },
                    }
                }
            },
        }
    }
}

/// Reads records from the given segment contents (rotated segments first, in
/// offset order, then the active segment, as a directory listing supplies
/// them): every parseable record with offset at least `from`, in order, up to
/// `limit` of them, payloads decoded back to text. Fails if a record it must
/// return has a payload that does not decode as base64-framed UTF-8 text.
pub fn read_from_segments(contents: &Vec<Vec<u8>>, from: u64, limit: usize) -> (r: Result<
    Vec<WalRecord>,
    WalError,
>)
    ensures
        ({
            let cands = filter_from(segs_read_records(contents.deep_view()), from);
            let n = if limit <= cands.len() {
                limit as int
            } else {
                cands.len() as int
            };
            match r {
                Ok(v) => {
                    &&& v@.len() == n
                    &&& forall|k: int| 0 <= k < n ==> record_matches(v@[k], #[trigger] cands[k])
                },
                Err(e) => {
                    &&& e == WalError::BadPayload
                    &&& exists|k: int|
                        0 <= k < n && spec_decode_payload(#[trigger] cands[k].2) is None
                },
            }
        }),
{
    let ghost views = contents.deep_view();
    let mut out: Vec<WalRecord> = Vec::new();
    if limit == 0 {
        return Ok(out);
    }
    let mut si: usize = 0;
    let ghost mut seen = Seq::<(u64, u64, Seq<u8>)>::empty();
    proof {
        assert(views.skip(0) =~= views);
        assert(seen + segs_read_records(views) =~= segs_read_records(views));
        assert(filter_from(seen, from) =~= Seq::<(u64, u64, Seq<u8>)>::empty());
    }
    while si < contents.len()
        invariant
            si <= contents.len(),
            views == contents.deep_view(),
            views.len() == contents@.len(),
            limit > 0,
            segs_read_records(views) == seen + segs_read_records(views.skip(si as int)),
            out@.len() == filter_from(seen, from).len(),
            out@.len() < limit,
            forall|k: int|
                0 <= k < out@.len() ==> record_matches(out@[k], filter_from(seen, from)[k]),
        decreases contents@.len() - si,
    {
        let data = &contents[si];
        proof {
            assert(views.skip(si as int)[0] == views[si as int]);
            assert(views.skip(si as int).drop_first() =~= views.skip(si as int + 1));
            assert(views[si as int] == data@);
            assert(seen + (spec_read_records(data@) + segs_read_records(
                views.skip(si as int + 1),
            )) =~= (seen + spec_read_records(data@)) + segs_read_records(
                views.skip(si as int + 1),
            ));
        }
        match read_segment(data.as_slice(), from, limit, &mut out, Ghost(seen)) {
            Ok((done, s2)) => {
                proof {
                    seen = s2@;
                }
                if done {
                    proof {
                        let tail = segs_read_records(views.skip(si as int + 1));
                        lemma_filter_from_concat(seen, tail, from);
                        let cands = filter_from(segs_read_records(views), from);
                        assert(cands =~= filter_from(seen, from) + filter_from(tail, from));
                        assert forall|k: int| 0 <= k < limit implies record_matches(
                            out@[k],
                            cands[k],
                        ) by {
                            assert(cands[k] == filter_from(seen, from)[k]);
                        }
                    }
                    return Ok(out);
                }
            },
            Err(e) => {
                proof {
                    let seen2 = seen + spec_read_records(data@);
                    let tail = segs_read_records(views.skip(si as int + 1));
                    lemma_filter_from_concat(seen2, tail, from);
                    let cands = filter_from(segs_read_records(views), from);
                    assert(cands =~= filter_from(seen2, from) + filter_from(tail, from));
                    let kw = choose|k: int|
                        0 <= k < limit && k < filter_from(seen2, from).len()
                            && spec_decode_payload(#[trigger] filter_from(seen2, from)[k].2)
                            is None;
                    assert(cands[kw] == filter_from(seen2, from)[kw]);
                    assert(0 <= kw < limit && kw < cands.len());
                    assert(spec_decode_payload(cands[kw].2) is None);
                }
                return Err(e);
            },
        }
        si = si + 1;
    }
    proof {
        assert(views.skip(si as int) =~= Seq::<Seq<u8>>::empty());
        assert(segs_read_records(views.skip(si as int)) =~= Seq::<(u64, u64, Seq<u8>)>::empty());
        assert(seen =~= segs_read_records(views));
    }
    Ok(out)
}

/// A framed payload round-trips unchanged, tabs, newlines and non-ASCII text
/// included: the record line written for a payload parses back to its
/// record, and the stored field decodes to the original text. The hypotheses
/// are exactly what the base64 encoder guarantees of the field it produced.
pub proof fn lemma_record_round_trip(off: u64, id: u64, payload: Seq<char>, b64: Seq<u8>)
    requires
        b64_dec(b64) == Some(encode_utf8(payload)),
        forall|i: int| 0 <= i < b64.len() ==> is_b64_byte(b64[i]),
    ensures
        spec_parse_line(spec_record_line(off, id, b64).drop_last()) == Some((off, id, b64)),
        spec_decode_payload(b64) == Some(payload),
{
    assert forall|i: int| 0 <= i < b64.len() implies b64[i] != TAB && b64[i] != NL by {
        assert(is_b64_byte(b64[i]));
    }
    lemma_parse_record_line(off, id, b64);
    vstd::utf8::encode_utf8_valid_utf8(payload);
    vstd::utf8::encode_utf8_decode_utf8(payload);
}

/// What a file name in a topic directory stands for.
#[derive(Clone, Copy, Debug, PartialEq, Eq, Structural)]
pub enum SegmentKind {
    /// The writable segment, always named `wal.log`.
    Active,
    /// A rotated segment `wal.<n>.log`, `n` the offset of its first record.
    Rotated(u64),
}

pub open spec fn spec_wal_log_name() -> Seq<char> {
    seq!['w', 'a', 'l', '.', 'l', 'o', 'g']
}

/// The name a rotation gives the retired active segment.
pub open spec fn spec_segment_file_name(start: u64) -> Seq<char> {
    seq!['w', 'a', 'l', '.'] + dec_chars(start as nat) + seq!['.', 'l', 'o', 'g']
}

/// What a directory entry's name means: the active segment, a rotated
/// segment with its embedded start offset, or nothing of the log's.
pub open spec fn spec_classify_segment_name(name: Seq<char>) -> Option<SegmentKind> {
    if name == spec_wal_log_name() {
        Some(SegmentKind::Active)
    } else if name.len() >= 8 && name.take(4) == seq!['w', 'a', 'l', '.'] && name.skip(
        name.len() - 4,
    ) == seq!['.', 'l', 'o', 'g'] {
        match spec_parse_u64_chars(name.subrange(4, name.len() - 4)) {
            Some(n) => Some(SegmentKind::Rotated(n)),
            None => None,
        }
    } else {
        None
    }
}

pub fn classify_segment_name(name: &str) -> (r: Option<SegmentKind>)
    ensures
        r == spec_classify_segment_name(name@),
{
    proof {
        reveal_strlit("wal.log");
        reveal_strlit("wal.");
        reveal_strlit(".log");
        assert("wal.log"@ =~= spec_wal_log_name());
        assert("wal."@ =~= seq!['w', 'a', 'l', '.']);
        assert(".log"@ =~= seq!['.', 'l', 'o', 'g']);
    }
    if crate::text::str_eq(name, "wal.log") {
        return Some(SegmentKind::Active);
    }
    let len = name.unicode_len();
    if len < 8 {
        return None;
    }
    if !crate::text::starts_with(name, "wal.") {
        return None;
    }
    let suffix = name.substring_char(len - 4, len);
    if !crate::text::str_eq(suffix, ".log") {
        proof {
            assert(name@.skip(name@.len() - 4) =~= name@.subrange(len - 4, len as int));
        }
        return None;
    }
    proof {
        assert(name@.skip(name@.len() - 4) =~= name@.subrange(len - 4, len as int));
    }
    match crate::numeric::parse_u64_chars(name, 4, len - 4) {
        Some(n) => Some(SegmentKind::Rotated(n)),
        None => None,
    }
}

/// The name a rotation writes, `wal.<start>.log`.
pub fn segment_file_name(start: u64) -> (s: String)
    ensures
        s@ == spec_segment_file_name(start),
{
    proof {
        reveal_strlit("wal.");
        reveal_strlit(".log");
        assert("wal."@ =~= seq!['w', 'a', 'l', '.']);
        assert(".log"@ =~= seq!['.', 'l', 'o', 'g']);
    }
    let mut s = String::from_str("wal.");
    let digits = crate::numeric::u64_to_string(start);
    s.append(digits.as_str());
    s.append(".log");
    proof {
        assert(s@ =~= spec_segment_file_name(start));
    }
    s
}

/// A rotated segment's name reads back as the segment it names.
pub proof fn lemma_segment_name_round_trip(start: u64)
    ensures
        spec_classify_segment_name(spec_segment_file_name(start)) == Some(
            SegmentKind::Rotated(start),
        ),
{
    crate::numeric::lemma_dec_chars_val(start as nat);
    let name = spec_segment_file_name(start);
    let d = dec_chars(start as nat);
    assert(name.len() == d.len() + 8);
    assert(name != spec_wal_log_name());
    assert(name.take(4) =~= seq!['w', 'a', 'l', '.']);
    assert(name.skip(name.len() - 4) =~= seq!['.', 'l', 'o', 'g']);
    assert(name.subrange(4, name.len() - 4) =~= d);
}

/// A rotated segment file as the directory listing shows it.
pub struct SegmentFile {
    /// The start offset its name embeds.
    pub start: u64,
    /// Its file name.
    pub name: String,
}

pub open spec fn sorted_by_start(s: Seq<SegmentFile>) -> bool {
    forall|i: int, j: int| 0 <= i < j < s.len() ==> #[trigger] s[i].start <= #[trigger] s[j].start
}

/// Orders the rotated segments by their start offsets, keeping exactly the
/// files given.
pub fn sort_segment_files(input: Vec<SegmentFile>) -> (r: Vec<SegmentFile>)
    ensures
        sorted_by_start(r@),
        r@.to_multiset() == input@.to_multiset(),
{
    broadcast use vstd::seq_lib::group_to_multiset_ensures;
    broadcast use vstd::multiset::group_multiset_axioms;

    let mut src = input;
    let mut out: Vec<SegmentFile> = Vec::new();
    proof {
        assert(out@.to_multiset().add(src@.to_multiset()) =~= input@.to_multiset());
    }
    while src.len() > 0
        invariant
            out@.to_multiset().add(src@.to_multiset()) == input@.to_multiset(),
            sorted_by_start(out@),
            forall|i: int, j: int|
                0 <= i < out@.len() && 0 <= j < src@.len() ==> #[trigger] out@[i].start
                    <= #[trigger] src@[j].start,
        decreases src@.len(),
    {
        let mut m: usize = 0;
        let mut k: usize = 1;
        while k < src.len()
            invariant
                m < k <= src@.len() || (k <= src@.len() && m == 0),
                m < src@.len(),
                forall|j: int| 0 <= j < k ==> src@[m as int].start <= #[trigger] src@[j].start,
            decreases src@.len() - k,
        {
            if src[k].start < src[m].start {
                m = k;
            }
            k = k + 1;
        }
        let ghost old_src = src@;
        let ghost old_out = out@;
        let item = src.remove(m);
        out.push(item);
        proof {
            old_out.to_multiset_ensures();
            old_src.to_multiset_ensures();
            assert(out@ == old_out.push(item));
            assert(src@ == old_src.remove(m as int));
            assert(out@.to_multiset() =~= old_out.to_multiset().insert(item));
            assert(old_src.remove(m as int).to_multiset() =~= old_src.to_multiset().remove(
                item,
            ));
            assert(old_src.to_multiset().count(item) > 0);
            assert(out@.to_multiset().add(src@.to_multiset()) =~= input@.to_multiset());
            assert forall|i: int, j: int|
                0 <= i < out@.len() && 0 <= j < src@.len() implies #[trigger] out@[i].start
                <= #[trigger] src@[j].start by {
                let jj = if j < m { j } else { j + 1 };
                assert(src@[j] == old_src[jj]);
                if i < out@.len() - 1 {
                    assert(out@[i] == old_out[i]);
                } else {
                    assert(out@[i] == item);
                }
            }
            assert forall|i: int, j: int|
                0 <= i < j < out@.len() implies #[trigger] out@[i].start
                <= #[trigger] out@[j].start by {
                if j < out@.len() - 1 {
                    assert(out@[i] == old_out[i] && out@[j] == old_out[j]);
                } else {
                    assert(out@[j] == item);
                    assert(out@[i] == old_out[i]);
                    assert(old_src[m as int] == item);
                }
            }
        }
    }
    proof {
        assert(src@.to_multiset() =~= Multiset::<SegmentFile>::empty());
        assert(out@.to_multiset() =~= input@.to_multiset());
    }
    out
}

} // verus!
