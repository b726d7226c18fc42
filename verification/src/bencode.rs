//! Bencode primitives: byte-string, integer, list and dictionary
//! framing, as specification-level parsers over `Seq<u8>` together
//! with executable parsers proved to agree with them.
//!
//! The grammar is the BitTorrent one: a byte string is
//! `<decimal length>:<bytes>`, an integer is `i<decimal>e`, a list is
//! `l<values>e` and a dictionary is `d<key value pairs>e` with
//! byte-string keys.  Number runs longer than `MAX_NUM_DIGITS` digits
//! are rejected; every length that fits a machine word is far below
//! that cap.

use vstd::prelude::*;

verus! {

/// Longest accepted run of decimal digits in a length or integer.
/// `10^38` still fits `u128`, and every real buffer length is shorter.
pub const MAX_NUM_DIGITS: usize = 38;

/// `10^38`, the first value a `MAX_NUM_DIGITS`-digit run cannot reach.
pub const DIGIT_VALUE_CAP: u128 = 100000000000000000000000000000000000000u128;

pub open spec fn is_digit(b: u8) -> bool {
    48 <= b <= 57
}

/// `10^k`.
pub open spec fn pow10(k: nat) -> nat
    decreases k,
{
    if k == 0 {
        1
    } else {
        10 * pow10((k - 1) as nat)
    }
}

pub proof fn lemma_pow10_increases(j: nat, k: nat)
    requires
        j <= k,
    ensures
        pow10(j) <= pow10(k),
    decreases k,
{
    if j < k {
        lemma_pow10_increases(j, (k - 1) as nat);
        assert(pow10(k) == 10 * pow10((k - 1) as nat));
    }
}

pub proof fn lemma_pow10_cap()
    ensures
        pow10(MAX_NUM_DIGITS as nat) == DIGIT_VALUE_CAP as nat,
{
    reveal_with_fuel(pow10, 40);
}

/// The decimal rendering of `n`, most significant digit first.
pub open spec fn dec_digits(n: nat) -> Seq<u8>
    decreases n,
{
    if n < 10 {
        seq![(48 + n) as u8]
    } else {
        dec_digits(n / 10) + seq![(48 + n % 10) as u8]
    }
}

pub proof fn lemma_dec_digits_len(n: nat, k: nat)
    requires
        1 <= k,
        n < pow10(k),
    ensures
        dec_digits(n).len() <= k,
    decreases n,
{
    if n >= 10 {
        assert(k >= 2) by {
            if k < 2 {
                assert(pow10(k) == 10 * pow10((k - 1) as nat));
                assert(pow10((k - 1) as nat) == 1);
            }
        }
        assert(n / 10 < pow10((k - 1) as nat)) by {
            assert(pow10(k) == 10 * pow10((k - 1) as nat));
        }
        lemma_dec_digits_len(n / 10, (k - 1) as nat);
    }
}

pub proof fn lemma_dec_digits_are_digits(n: nat)
    ensures
        forall|i: int| 0 <= i < dec_digits(n).len() ==> is_digit(#[trigger] dec_digits(n)[i]),
    decreases n,
{
    if n < 10 {
        assert(dec_digits(n)[0] == (48 + n) as u8);
    } else {
        lemma_dec_digits_are_digits(n / 10);
        let pre = dec_digits(n / 10);
        assert forall|i: int| 0 <= i < dec_digits(n).len() implies is_digit(
            dec_digits(n)[i],
        ) by {
            if i < pre.len() {
                assert(dec_digits(n)[i] == pre[i]);
            } else {
                assert(dec_digits(n)[i] == (48 + n % 10) as u8);
            }
        }
    }
}

/// Greedy decimal parse: consumes digits, accumulating onto `acc`,
/// and rejects runs longer than `MAX_NUM_DIGITS`.  Returns the value
/// and the unread remainder.  Fails when no digit was read at all.
pub open spec fn spec_parse_digits(s: Seq<u8>, acc: nat, cnt: nat) -> Option<(nat, Seq<u8>)>
    decreases s.len(),
{
    if s.len() > 0 && is_digit(s[0]) {
        if cnt >= MAX_NUM_DIGITS {
            None
        } else {
            spec_parse_digits(s.drop_first(), acc * 10 + (s[0] - 48) as nat, cnt + 1)
        }
    } else if cnt > 0 {
        Some((acc, s))
    } else {
        None
    }
}

pub proof fn lemma_parse_digits_len(s: Seq<u8>, acc: nat, cnt: nat)
    ensures
        spec_parse_digits(s, acc, cnt) matches Some((n, r)) ==> r.len() <= s.len(),
        cnt == 0 ==> (spec_parse_digits(s, acc, cnt) matches Some((n, r)) ==> r.len() < s.len()),
    decreases s.len(),
{
    if s.len() > 0 && is_digit(s[0]) && cnt < MAX_NUM_DIGITS {
        lemma_parse_digits_len(s.drop_first(), acc * 10 + (s[0] - 48) as nat, cnt + 1);
    }
}

/// Bencode byte string: `<len>:<bytes>`.  Returns the content and the
/// unread remainder.
pub open spec fn spec_parse_bstr(s: Seq<u8>) -> Option<(Seq<u8>, Seq<u8>)> {
    match spec_parse_digits(s, 0, 0) {
        Some((n, r)) => if r.len() >= 1 && r[0] == 58 && n + 1 <= r.len() {
            Some((r.subrange(1, n as int + 1), r.skip(n as int + 1)))
        } else {
            None
        },
        None => None,
    }
}

pub proof fn lemma_parse_bstr_len(s: Seq<u8>)
    ensures
        spec_parse_bstr(s) matches Some((v, r)) ==> r.len() < s.len(),
{
    lemma_parse_digits_len(s, 0, 0);
}

/// Bencode unsigned integer: `i<digits>e`.  A leading minus sign is
/// not a number the protocol fields here can hold, so it fails.
pub open spec fn spec_parse_uint(s: Seq<u8>) -> Option<(nat, Seq<u8>)> {
    if s.len() > 0 && s[0] == 105 {
        match spec_parse_digits(s.skip(1), 0, 0) {
            Some((n, r)) => if r.len() > 0 && r[0] == 101 {
                Some((n, r.skip(1)))
            } else {
                None
            },
            None => None,
        }
    } else {
        None
    }
}

/// Skips one integer value, minus sign allowed: used only to step
/// over values of unrecognised dictionary keys.
pub open spec fn spec_skip_int(s: Seq<u8>) -> Option<Seq<u8>> {
    if s.len() > 0 && s[0] == 105 {
        let body = if s.len() > 1 && s[1] == 45 {
            s.skip(2)
        } else {
            s.skip(1)
        };
        match spec_parse_digits(body, 0, 0) {
            Some((n, r)) => if r.len() > 0 && r[0] == 101 {
                Some(r.skip(1))
            } else {
                None
            },
            None => None,
        }
    } else {
        None
    }
}

/// Steps over one bencode value of any kind, returning the remainder.
pub open spec fn spec_skip_value(s: Seq<u8>) -> Option<Seq<u8>>
    decreases s.len(), 0int,
{
    if s.len() == 0 {
        None
    } else if is_digit(s[0]) {
        match spec_parse_bstr(s) {
            Some((v, r)) => Some(r),
            None => None,
        }
    } else if s[0] == 105 {
        spec_skip_int(s)
    } else if s[0] == 108 {
        spec_skip_list_items(s.skip(1))
    } else if s[0] == 100 {
        spec_skip_dict_items(s.skip(1))
    } else {
        None
    }
}

/// Steps over list items up to and over the closing `e`.
pub open spec fn spec_skip_list_items(s: Seq<u8>) -> Option<Seq<u8>>
    decreases s.len(), 1int,
{
    if s.len() == 0 {
        None
    } else if s[0] == 101 {
        Some(s.skip(1))
    } else {
        match spec_skip_value(s) {
            Some(r) => if r.len() < s.len() {
                spec_skip_list_items(r)
            } else {
                None
            },
            None => None,
        }
    }
}

/// Steps over dictionary entries (byte-string key, then any value) up
/// to and over the closing `e`.
pub open spec fn spec_skip_dict_items(s: Seq<u8>) -> Option<Seq<u8>>
    decreases s.len(), 1int,
{
    if s.len() == 0 {
        None
    } else if s[0] == 101 {
        Some(s.skip(1))
    } else {
        match spec_parse_bstr(s) {
            Some((k, r1)) => if r1.len() < s.len() {
                match spec_skip_value(r1) {
                    Some(r2) => if r2.len() < s.len() {
                        spec_skip_dict_items(r2)
                    } else {
                        None
                    },
                    None => None,
                }
            } else {
                None
            },
            None => None,
        }
    }
}

pub proof fn lemma_skip_value_len(s: Seq<u8>)
    ensures
        spec_skip_value(s) matches Some(r) ==> r.len() < s.len(),
    decreases s.len(), 0int,
{
    if s.len() > 0 {
        if is_digit(s[0]) {
            lemma_parse_bstr_len(s);
        } else if s[0] == 105 {
            if s.len() > 1 && s[1] == 45 {
                lemma_parse_digits_len(s.skip(2), 0, 0);
            } else {
                lemma_parse_digits_len(s.skip(1), 0, 0);
            }
        } else if s[0] == 108 {
            lemma_skip_list_items_len(s.skip(1));
        } else if s[0] == 100 {
            lemma_skip_dict_items_len(s.skip(1));
        }
    }
}

pub proof fn lemma_skip_list_items_len(s: Seq<u8>)
    ensures
        spec_skip_list_items(s) matches Some(r) ==> r.len() < s.len(),
    decreases s.len(), 1int,
{
    if s.len() > 0 && s[0] != 101 {
        lemma_skip_value_len(s);
        match spec_skip_value(s) {
            Some(r) => if r.len() < s.len() {
                lemma_skip_list_items_len(r);
            },
            None => {},
        }
    }
}

pub proof fn lemma_skip_dict_items_len(s: Seq<u8>)
    ensures
        spec_skip_dict_items(s) matches Some(r) ==> r.len() < s.len(),
    decreases s.len(), 1int,
{
    if s.len() > 0 && s[0] != 101 {
        lemma_parse_bstr_len(s);
        match spec_parse_bstr(s) {
            Some((k, r1)) => if r1.len() < s.len() {
                lemma_skip_value_len(r1);
                match spec_skip_value(r1) {
                    Some(r2) => if r2.len() < s.len() {
                        lemma_skip_dict_items_len(r2);
                    },
                    None => {},
                }
            },
            None => {},
        }
    }
}

/// Scans dictionary entries for `key` and returns the suffix that
/// starts at its value.  Stops at the closing `e`; the first
/// occurrence of a repeated key wins.
pub open spec fn spec_find_key(s: Seq<u8>, key: Seq<u8>) -> Option<Seq<u8>>
    decreases s.len(),
{
    if s.len() == 0 {
        None
    } else if s[0] == 101 {
        None
    } else {
        match spec_parse_bstr(s) {
            Some((k, r1)) => if k == key {
                Some(r1)
            } else {
                match spec_skip_value(r1) {
                    Some(r2) => if r2.len() < s.len() {
                        spec_find_key(r2, key)
                    } else {
                        None
                    },
                    None => None,
                }
            },
            None => None,
        }
    }
}

/// Parses a digit run at `pos`, continuing from `acc` after `cnt`
/// digits already read, exactly as `spec_parse_digits` does on the
/// suffix.
fn parse_digits(s: &[u8], pos: usize, acc: u128, cnt: usize) -> (r: Option<(u128, usize)>)
    requires
        pos <= s@.len(),
        cnt <= MAX_NUM_DIGITS,
        (acc as nat) < pow10(cnt as nat),
    ensures
        match r {
            Some((n, p)) => {
                &&& pos <= p <= s@.len()
                &&& spec_parse_digits(s@.skip(pos as int), acc as nat, cnt as nat) == Some(
                    ((n as nat), s@.skip(p as int)),
                )
                &&& (n as nat) < pow10(MAX_NUM_DIGITS as nat)
            },
            None => spec_parse_digits(s@.skip(pos as int), acc as nat, cnt as nat) is None,
        },
    decreases s@.len() - pos,
{
    if pos < s.len() && 48 <= s[pos] && s[pos] <= 57 {
        if cnt >= MAX_NUM_DIGITS {
            None
        } else {
            proof {
                lemma_pow10_increases(cnt as nat + 1, MAX_NUM_DIGITS as nat);
                lemma_pow10_cap();
                assert(pow10(cnt as nat + 1) == 10 * pow10(cnt as nat));
            }
            let d = (s[pos] - 48) as u128;
            let acc2 = acc * 10 + d;
            let r = parse_digits(s, pos + 1, acc2, cnt + 1);
            proof {
                assert(s@.skip(pos as int).drop_first() =~= s@.skip(pos as int + 1));
            }
            r
        }
    } else if cnt > 0 {
        proof {
            lemma_pow10_increases(cnt as nat, MAX_NUM_DIGITS as nat);
        }
        Some((acc, pos))
    } else {
        None
    }
}

/// Parses a byte string at `pos`; returns the content's start and
/// end.  The remainder begins at the returned end.
pub(crate) fn parse_bstr(s: &[u8], pos: usize) -> (r: Option<(usize, usize)>)
    requires
        pos <= s@.len(),
    ensures
        match r {
            Some((cs, ce)) => {
                &&& pos < cs <= ce <= s@.len()
                &&& spec_parse_bstr(s@.skip(pos as int)) == Some(
                    (s@.subrange(cs as int, ce as int), s@.skip(ce as int)),
                )
            },
            None => spec_parse_bstr(s@.skip(pos as int)) is None,
        },
{
    match parse_digits(s, pos, 0, 0) {
        Some((n, p)) => {
            if p < s.len() && s[p] == 58 {
                let rem = s.len() - p - 1;
                if n <= rem as u128 {
                    let cs = p + 1;
                    let ce = p + 1 + (n as usize);
                    proof {
                        assert(s@.skip(p as int).subrange(1, n as int + 1) =~= s@.subrange(
                            cs as int,
                            ce as int,
                        ));
                        assert(s@.skip(p as int).skip(n as int + 1) =~= s@.skip(ce as int));
                    }
                    Some((cs, ce))
                } else {
                    None
                }
            } else {
                None
            }
        },
        None => None,
    }
}

/// Parses an unsigned integer value `i<digits>e` at `pos`.
pub(crate) fn parse_uint(s: &[u8], pos: usize) -> (r: Option<(u128, usize)>)
    requires
        pos <= s@.len(),
    ensures
        match r {
            Some((n, p)) => {
                &&& pos < p <= s@.len()
                &&& spec_parse_uint(s@.skip(pos as int)) == Some(((n as nat), s@.skip(p as int)))
            },
            None => spec_parse_uint(s@.skip(pos as int)) is None,
        },
{
    if pos < s.len() && s[pos] == 105 {
        let r = parse_digits(s, pos + 1, 0, 0);
        proof {
            assert(s@.skip(pos as int).skip(1) =~= s@.skip(pos as int + 1));
        }
        match r {
            Some((n, p)) => {
                if p < s.len() && s[p] == 101 {
                    proof {
                        assert(s@.skip(p as int).skip(1) =~= s@.skip(p as int + 1));
                    }
                    Some((n, p + 1))
                } else {
                    None
                }
            },
            None => None,
        }
    } else {
        None
    }
}

/// Steps over one integer value at `pos`, minus sign allowed.
fn skip_int(s: &[u8], pos: usize) -> (r: Option<usize>)
    requires
        pos <= s@.len(),
    ensures
        match r {
            Some(p) => pos < p <= s@.len() && spec_skip_int(s@.skip(pos as int)) == Some(
                s@.skip(p as int),
            ),
            None => spec_skip_int(s@.skip(pos as int)) is None,
        },
{
    if pos < s.len() && s[pos] == 105 {
        let body: usize;
        if pos + 1 < s.len() && s[pos + 1] == 45 {
            body = pos + 2;
            proof {
                assert(s@.skip(pos as int).skip(2) =~= s@.skip(pos as int + 2));
            }
        } else {
            body = pos + 1;
            proof {
                assert(s@.skip(pos as int).skip(1) =~= s@.skip(pos as int + 1));
            }
        }
        match parse_digits(s, body, 0, 0) {
            Some((n, p)) => {
                if p < s.len() && s[p] == 101 {
                    proof {
                        assert(s@.skip(p as int).skip(1) =~= s@.skip(p as int + 1));
                    }
                    Some(p + 1)
                } else {
                    None
                }
            },
            None => None,
        }
    } else {
        None
    }
}

/// Steps over one bencode value of any kind at `pos`.
pub(crate) fn skip_value(s: &[u8], pos: usize) -> (r: Option<usize>)
    requires
        pos <= s@.len(),
    ensures
        match r {
            Some(p) => pos < p <= s@.len() && spec_skip_value(s@.skip(pos as int)) == Some(
                s@.skip(p as int),
            ),
            None => spec_skip_value(s@.skip(pos as int)) is None,
        },
    decreases s@.len() - pos, 0int,
{
    if pos >= s.len() {
        return None;
    }
    let b = s[pos];
    if 48 <= b && b <= 57 {
        match parse_bstr(s, pos) {
            Some((cs, ce)) => Some(ce),
            None => None,
        }
    } else if b == 105 {
        skip_int(s, pos)
    } else if b == 108 {
        let r = skip_list_items(s, pos + 1);
        proof {
            assert(s@.skip(pos as int).skip(1) =~= s@.skip(pos as int + 1));
        }
        r
    } else if b == 100 {
        let r = skip_dict_items(s, pos + 1);
        proof {
            assert(s@.skip(pos as int).skip(1) =~= s@.skip(pos as int + 1));
        }
        r
    } else {
        None
    }
}

/// Steps over list items at `pos`, up to and over the closing `e`.
pub(crate) fn skip_list_items(s: &[u8], pos: usize) -> (r: Option<usize>)
    requires
        pos <= s@.len(),
    ensures
        match r {
            Some(p) => pos < p <= s@.len() && spec_skip_list_items(s@.skip(pos as int)) == Some(
                s@.skip(p as int),
            ),
            None => spec_skip_list_items(s@.skip(pos as int)) is None,
        },
    decreases s@.len() - pos, 1int,
{
    if pos >= s.len() {
        return None;
    }
    if s[pos] == 101 {
        proof {
            assert(s@.skip(pos as int).skip(1) =~= s@.skip(pos as int + 1));
        }
        return Some(pos + 1);
    }
    match skip_value(s, pos) {
        Some(p) => skip_list_items(s, p),
        None => None,
    }
}

/// Steps over dictionary entries at `pos`, up to and over the
/// closing `e`.
pub(crate) fn skip_dict_items(s: &[u8], pos: usize) -> (r: Option<usize>)
    requires
        pos <= s@.len(),
    ensures
        match r {
            Some(p) => pos < p <= s@.len() && spec_skip_dict_items(s@.skip(pos as int)) == Some(
                s@.skip(p as int),
            ),
            None => spec_skip_dict_items(s@.skip(pos as int)) is None,
        },
    decreases s@.len() - pos, 1int,
{
    if pos >= s.len() {
        return None;
    }
    if s[pos] == 101 {
        proof {
            assert(s@.skip(pos as int).skip(1) =~= s@.skip(pos as int + 1));
        }
        return Some(pos + 1);
    }
    match parse_bstr(s, pos) {
        Some((cs, ce)) => {
            match skip_value(s, ce) {
                Some(p) => skip_dict_items(s, p),
                None => None,
            }
        },
        None => None,
    }
}

/// Compares `s[a..b]` with `key`.
pub(crate) fn range_eq(s: &[u8], a: usize, b: usize, key: &[u8]) -> (r: bool)
    requires
        a <= b <= s@.len(),
    ensures
        r == (s@.subrange(a as int, b as int) == key@),
{
    if b - a != key.len() {
        proof {
            assert(s@.subrange(a as int, b as int).len() != key@.len());
        }
        return false;
    }
    let n = key.len();
    let mut i: usize = 0;
    while i < n
        invariant
            0 <= i <= n,
            n == key@.len(),
            a + n == b,
            a <= b <= s@.len(),
            forall|j: int| 0 <= j < i ==> s@.subrange(a as int, b as int)[j] == key@[j],
        decreases n - i,
    {
        if s[a + i] != key[i] {
            proof {
                assert(s@.subrange(a as int, b as int)[i as int] != key@[i as int]);
            }
            return false;
        }
        proof {
            assert(s@.subrange(a as int, b as int)[i as int] == key@[i as int]);
        }
        i = i + 1;
    }
    proof {
        assert(s@.subrange(a as int, b as int) =~= key@);
    }
    true
}

/// Scans dictionary entries at `pos` for `key`; returns the position
/// of its value.
pub(crate) fn find_key(s: &[u8], pos: usize, key: &[u8]) -> (r: Option<usize>)
    requires
        pos <= s@.len(),
    ensures
        match r {
            Some(p) => pos < p <= s@.len() && spec_find_key(s@.skip(pos as int), key@) == Some(
                s@.skip(p as int),
            ),
            None => spec_find_key(s@.skip(pos as int), key@) is None,
        },
    decreases s@.len() - pos,
{
    if pos >= s.len() {
        return None;
    }
    if s[pos] == 101 {
        return None;
    }
    match parse_bstr(s, pos) {
        Some((cs, ce)) => {
            if range_eq(s, cs, ce, key) {
                Some(ce)
            } else {
                match skip_value(s, ce) {
                    Some(p) => find_key(s, p, key),
                    None => None,
                }
            }
        },
        None => None,
    }
}

/// Canonical byte-string encoding: `<len>:<bytes>`.
pub open spec fn spec_enc_bstr(b: Seq<u8>) -> Seq<u8> {
    dec_digits(b.len()) + seq![58u8] + b
}

/// Canonical unsigned-integer encoding: `i<digits>e`.
pub open spec fn spec_enc_uint(n: nat) -> Seq<u8> {
    seq![105u8] + dec_digits(n) + seq![101u8]
}


// ---------------------------------------------------------------------------
// Encoding (executable)
// ---------------------------------------------------------------------------

/// Appends the decimal rendering of `n`.
pub fn push_dec(out: &mut Vec<u8>, n: u64)
    ensures
        final(out)@ == old(out)@ + dec_digits(n as nat),
    decreases n,
{
    if n < 10 {
        out.push(48 + (n as u8));
        proof {
            assert(out@ =~= old(out)@ + dec_digits(n as nat));
        }
    } else {
        push_dec(out, n / 10);
        out.push(48 + ((n % 10) as u8));
        proof {
            assert(out@ =~= old(out)@ + dec_digits(n as nat));
        }
    }
}

/// Appends the byte-string encoding `<len>:<bytes>` of `s`.
pub fn push_bstr(out: &mut Vec<u8>, s: &[u8])
    ensures
        final(out)@ == old(out)@ + spec_enc_bstr(s@),
{
    push_dec(out, s.len() as u64);
    out.push(58);
    out.extend_from_slice(s);
    proof {
        assert(out@ =~= old(out)@ + spec_enc_bstr(s@));
    }
}

/// Appends the integer encoding `i<digits>e` of `n`.
pub fn push_uint(out: &mut Vec<u8>, n: u64)
    ensures
        final(out)@ == old(out)@ + spec_enc_uint(n as nat),
{
    out.push(105);
    push_dec(out, n);
    out.push(101);
    proof {
        assert(out@ =~= old(out)@ + spec_enc_uint(n as nat));
    }
}

// ---------------------------------------------------------------------------
// Parsing inverts encoding
// ---------------------------------------------------------------------------

/// Reading the digits of `n` continues the accumulator run exactly
/// over them.
proof fn lemma_parse_digits_chunk(n: nat, acc: nat, cnt: nat, rest: Seq<u8>)
    requires
        cnt + dec_digits(n).len() <= MAX_NUM_DIGITS,
    ensures
        spec_parse_digits(dec_digits(n) + rest, acc, cnt) == spec_parse_digits(
            rest,
            acc * pow10(dec_digits(n).len()) + n,
            cnt + dec_digits(n).len(),
        ),
    decreases n,
{
    lemma_dec_digits_are_digits(n);
    let d = dec_digits(n);
    let s = d + rest;
    assert(s[0] == d[0]);
    assert(is_digit(d[0]));
    if n < 10 {
        assert(s.drop_first() =~= rest);
        assert(acc * 10 + (s[0] - 48) as nat == acc * pow10(1) + n) by {
            assert(pow10(1) == 10) by {
                reveal_with_fuel(pow10, 2);
            }
            assert(s[0] == (48 + n) as u8);
        }
    } else {
        let pre = dec_digits(n / 10);
        let last = (48 + n % 10) as u8;
        assert(d == pre + seq![last]);
        assert(s =~= pre + (seq![last] + rest));
        lemma_parse_digits_chunk(n / 10, acc, cnt, seq![last] + rest);
        assert(spec_parse_digits(s, acc, cnt) == spec_parse_digits(
            seq![last] + rest,
            acc * pow10(pre.len()) + n / 10,
            cnt + pre.len(),
        ));
        let acc1 = acc * pow10(pre.len()) + n / 10;
        assert((seq![last] + rest)[0] == last);
        assert(is_digit(last));
        assert(cnt + pre.len() < MAX_NUM_DIGITS);
        assert((seq![last] + rest).drop_first() =~= rest);
        assert(spec_parse_digits(seq![last] + rest, acc1, cnt + pre.len())
            == spec_parse_digits(rest, acc1 * 10 + (last - 48) as nat, cnt + pre.len() + 1));
        assert(acc1 * 10 + (last - 48) as nat == acc * pow10(d.len()) + n) by {
            assert((last - 48) as nat == n % 10);
            assert(pow10(pre.len() + 1) == 10 * pow10(pre.len()));
            assert((acc * pow10(pre.len()) + n / 10) * 10 == acc * (10 * pow10(pre.len())) + (n
                / 10) * 10) by (nonlinear_arith);
            assert((n / 10) * 10 + n % 10 == n) by {
                vstd::arithmetic::div_mod::lemma_fundamental_div_mod(n as int, 10);
            }
        }
    }
}

/// Reading the rendered digits of `n` followed by a non-digit yields
/// `n` exactly.
pub proof fn lemma_parse_digits_enc(n: nat, rest: Seq<u8>)
    requires
        dec_digits(n).len() <= MAX_NUM_DIGITS,
        rest.len() == 0 || !is_digit(rest[0]),
    ensures
        spec_parse_digits(dec_digits(n) + rest, 0, 0) == Some((n, rest)),
{
    lemma_parse_digits_chunk(n, 0, 0, rest);
    let cnt = dec_digits(n).len();
    assert(spec_parse_digits(rest, n, cnt) == Some((n, rest)));
}

/// A byte-string encoding parses back to its content.
pub proof fn lemma_parse_bstr_enc(b: Seq<u8>, rest: Seq<u8>)
    requires
        b.len() < DIGIT_VALUE_CAP as nat,
    ensures
        spec_parse_bstr(spec_enc_bstr(b) + rest) == Some((b, rest)),
{
    lemma_pow10_cap();
    lemma_dec_digits_len(b.len(), MAX_NUM_DIGITS as nat);
    let tailp = seq![58u8] + b + rest;
    assert(spec_enc_bstr(b) + rest =~= dec_digits(b.len()) + tailp);
    assert(!is_digit(tailp[0]));
    lemma_parse_digits_enc(b.len(), tailp);
    assert(spec_parse_digits(spec_enc_bstr(b) + rest, 0, 0) == Some((b.len(), tailp)));
    assert(tailp[0] == 58);
    assert(b.len() + 1 <= tailp.len());
    assert(tailp.subrange(1, b.len() as int + 1) =~= b);
    assert(tailp.skip(b.len() as int + 1) =~= rest);
}

/// An unsigned-integer encoding parses back to its value.
pub proof fn lemma_parse_uint_enc(n: nat, rest: Seq<u8>)
    requires
        n < DIGIT_VALUE_CAP as nat,
    ensures
        spec_parse_uint(spec_enc_uint(n) + rest) == Some((n, rest)),
{
    lemma_pow10_cap();
    lemma_dec_digits_len_of_value(n);
    let s = spec_enc_uint(n) + rest;
    assert(s[0] == 105);
    let tailp = seq![101u8] + rest;
    assert(s.skip(1) =~= dec_digits(n) + tailp);
    assert(!is_digit(tailp[0]));
    lemma_parse_digits_enc(n, tailp);
    assert(tailp[0] == 101);
    assert(tailp.skip(1) =~= rest);
}

/// A value below the digit cap renders to at most the digit cap's
/// many digits.
pub proof fn lemma_dec_digits_len_of_value(n: nat)
    requires
        n < DIGIT_VALUE_CAP as nat,
    ensures
        dec_digits(n).len() <= MAX_NUM_DIGITS,
{
    lemma_pow10_cap();
    lemma_dec_digits_len(n, MAX_NUM_DIGITS as nat);
}

/// Skipping over an encoded byte string lands right after it.
pub proof fn lemma_skip_bstr(b: Seq<u8>, rest: Seq<u8>)
    requires
        b.len() < DIGIT_VALUE_CAP as nat,
    ensures
        spec_skip_value(spec_enc_bstr(b) + rest) == Some(rest),
{
    let s = spec_enc_bstr(b) + rest;
    lemma_dec_digits_are_digits(b.len());
    assert(s[0] == dec_digits(b.len())[0]);
    assert(is_digit(s[0]));
    lemma_parse_bstr_enc(b, rest);
}

/// Skipping over an encoded unsigned integer lands right after it.
pub proof fn lemma_skip_uint(n: nat, rest: Seq<u8>)
    requires
        n < DIGIT_VALUE_CAP as nat,
    ensures
        spec_skip_value(spec_enc_uint(n) + rest) == Some(rest),
{
    let s = spec_enc_uint(n) + rest;
    assert(s[0] == 105);
    lemma_pow10_cap();
    lemma_dec_digits_len_of_value(n);
    lemma_dec_digits_are_digits(n);
    let tailp = seq![101u8] + rest;
    assert(s.skip(1) =~= dec_digits(n) + tailp);
    assert(s.len() > 1 && s[1] == dec_digits(n)[0]);
    assert(is_digit(s[1]));
    assert(s[1] != 45);
    assert(!is_digit(tailp[0]));
    lemma_parse_digits_enc(n, tailp);
    assert(tailp[0] == 101);
    assert(tailp.skip(1) =~= rest);
}

/// One dictionary entry whose value can be skipped steps the walk to
/// what follows it.
pub proof fn lemma_skip_dict_step(key: Seq<u8>, vtail: Seq<u8>, tail: Seq<u8>)
    requires
        key.len() < DIGIT_VALUE_CAP as nat,
        spec_skip_value(vtail) == Some(tail),
    ensures
        spec_skip_dict_items(spec_enc_bstr(key) + vtail) == spec_skip_dict_items(tail),
{
    let s = spec_enc_bstr(key) + vtail;
    lemma_parse_bstr_enc(key, vtail);
    lemma_dec_digits_are_digits(key.len());
    assert(s[0] == dec_digits(key.len())[0]);
    assert(is_digit(s[0]));
    assert(s[0] != 101);
    assert(s.len() > 0);
    assert(vtail.len() < s.len()) by {
        assert(spec_enc_bstr(key).len() > 0);
    }
    lemma_skip_value_len(vtail);
    assert(tail.len() < vtail.len());
}

/// The walk ends at the closing `e`.
pub proof fn lemma_skip_dict_end(rest: Seq<u8>)
    ensures
        spec_skip_dict_items(seq![101u8] + rest) == Some(rest),
{
    let s = seq![101u8] + rest;
    assert(s[0] == 101);
    assert(s.skip(1) =~= rest);
}

/// Scanning for `key` finds it at the entry that carries it.
pub proof fn lemma_find_key_hit(key: Seq<u8>, vtail: Seq<u8>)
    requires
        key.len() < DIGIT_VALUE_CAP as nat,
    ensures
        spec_find_key(spec_enc_bstr(key) + vtail, key) == Some(vtail),
{
    let s = spec_enc_bstr(key) + vtail;
    lemma_parse_bstr_enc(key, vtail);
    lemma_dec_digits_are_digits(key.len());
    assert(s[0] == dec_digits(key.len())[0]);
    assert(is_digit(s[0]));
    assert(s[0] != 101);
}

/// Scanning for `key` walks over an entry that carries another key.
pub proof fn lemma_find_key_miss(k: Seq<u8>, key: Seq<u8>, vtail: Seq<u8>, tail: Seq<u8>)
    requires
        k.len() < DIGIT_VALUE_CAP as nat,
        k != key,
        spec_skip_value(vtail) == Some(tail),
    ensures
        spec_find_key(spec_enc_bstr(k) + vtail, key) == spec_find_key(tail, key),
{
    let s = spec_enc_bstr(k) + vtail;
    lemma_parse_bstr_enc(k, vtail);
    lemma_dec_digits_are_digits(k.len());
    assert(s[0] == dec_digits(k.len())[0]);
    assert(is_digit(s[0]));
    assert(s[0] != 101);
    lemma_skip_value_len(vtail);
    assert(tail.len() < vtail.len());
    assert(vtail.len() < s.len()) by {
        assert(spec_enc_bstr(k).len() > 0);
    }
}

/// Scanning for `key` stops empty-handed at the closing `e`.
pub proof fn lemma_find_key_end(key: Seq<u8>, rest: Seq<u8>)
    ensures
        spec_find_key(seq![101u8] + rest, key) is None,
{
    let s = seq![101u8] + rest;
    assert(s[0] == 101);
}

/// One list item that can be skipped steps the walk to what follows.
pub proof fn lemma_skip_list_step(vtail: Seq<u8>, tail: Seq<u8>)
    requires
        spec_skip_value(vtail) == Some(tail),
    ensures
        spec_skip_list_items(vtail) == spec_skip_list_items(tail),
{
    assert(vtail.len() > 0);
    assert(vtail[0] != 101);
    lemma_skip_value_len(vtail);
}

/// The list walk ends at the closing `e`.
pub proof fn lemma_skip_list_end(rest: Seq<u8>)
    ensures
        spec_skip_list_items(seq![101u8] + rest) == Some(rest),
{
    let s = seq![101u8] + rest;
    assert(s[0] == 101);
    assert(s.skip(1) =~= rest);
}
} // verus!
