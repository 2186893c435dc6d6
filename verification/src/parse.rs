//! Tokenizing report lines and parsing their records.
//!
//! Lines are sequences of bytes; tokens are maximal runs of non-space
//! bytes, separated by ASCII whitespace.  Identifiers are unsigned
//! decimal integers: 32 bits for stations and chargers, 64 bits for
//! times.  The reachability flag is exactly the literal `true` or `True`;
//! every other value, including absence, means unreachable.

use vstd::prelude::*;
use vstd::string::StringSliceAdditionalSpecFns;
use crate::error::{DataError, DataErrorSpec};
use crate::window::TimeRange;

verus! {

/// ASCII whitespace: space, tab, line feed, vertical tab, form feed,
/// carriage return.
pub open spec fn is_space(b: u8) -> bool {
    b == 32 || b == 9 || b == 10 || b == 11 || b == 12 || b == 13
}

/// Executable counterpart of [`is_space`].
pub fn byte_is_space(b: u8) -> (r: bool)
    ensures
        r == is_space(b),
{
    b == 32 || b == 9 || b == 10 || b == 11 || b == 12 || b == 13
}

/// Length of the leading run of non-space bytes.
pub open spec fn token_len(s: Seq<u8>) -> int
    decreases s.len(),
{
    if s.len() == 0 || is_space(s[0]) {
        0
    } else {
        1 + token_len(s.drop_first())
    }
}

proof fn lemma_token_len(s: Seq<u8>)
    ensures
        0 <= token_len(s) <= s.len(),
        forall|k: int| 0 <= k < token_len(s) ==> !is_space(s[k]),
        token_len(s) < s.len() ==> is_space(s[token_len(s)]),
    decreases s.len(),
{
    if s.len() > 0 && !is_space(s[0]) {
        lemma_token_len(s.drop_first());
        assert forall|k: int| 0 <= k < token_len(s) implies !is_space(s[k]) by {
            if k > 0 {
                assert(s[k] == s.drop_first()[k - 1]);
            }
        }
        assert(s[token_len(s)] == s.drop_first()[token_len(s.drop_first())] || token_len(s)
            >= s.len());
    }
}

/// The leading-token length is pinned by what a left-to-right scan sees.
proof fn lemma_token_len_unique(s: Seq<u8>, n: int)
    requires
        0 <= n <= s.len(),
        forall|k: int| 0 <= k < n ==> !is_space(s[k]),
        n < s.len() ==> is_space(s[n]),
    ensures
        token_len(s) == n,
    decreases s.len(),
{
    if n > 0 {
        assert(!is_space(s[0]));
        let t = s.drop_first();
        assert forall|k: int| 0 <= k < n - 1 implies !is_space(t[k]) by {
            assert(t[k] == s[k + 1]);
        }
        assert(n - 1 < t.len() ==> is_space(t[n - 1]));
        lemma_token_len_unique(t, n - 1);
    }
}

/// The whitespace-delimited tokens of a line.
pub open spec fn tokens_of(s: Seq<u8>) -> Seq<Seq<u8>>
    decreases s.len(),
    via tokens_of_dec
{
    if s.len() == 0 {
        Seq::empty()
    } else if is_space(s[0]) {
        tokens_of(s.drop_first())
    } else {
        seq![s.take(token_len(s))] + tokens_of(s.skip(token_len(s)))
    }
}

#[via_fn]
proof fn tokens_of_dec(s: Seq<u8>) {
    lemma_token_len(s);
}

/// Splits a line into its whitespace-delimited tokens, exactly as
/// [`tokens_of`] states it.
pub fn split_tokens(line: &[u8]) -> (r: Vec<Vec<u8>>)
    ensures
        r@.map_values(|t: Vec<u8>| t@) == tokens_of(line@),
{
    let mut toks: Vec<Vec<u8>> = Vec::new();
    let mut i: usize = 0;
    proof {
        assert(line@.skip(0) =~= line@);
        assert(toks@.map_values(|t: Vec<u8>| t@) =~= Seq::<Seq<u8>>::empty());
    }
    while i < line.len()
        invariant
            0 <= i <= line@.len(),
            tokens_of(line@) == toks@.map_values(|t: Vec<u8>| t@) + tokens_of(
                line@.skip(i as int),
            ),
        decreases line@.len() - i,
    {
        if byte_is_space(line[i]) {
            proof {
                assert(line@.skip(i as int).drop_first() =~= line@.skip(i + 1));
            }
            i = i + 1;
        } else {
            let start = i;
            let mut j: usize = i;
            while j < line.len() && !byte_is_space(line[j])
                invariant
                    start <= j <= line@.len(),
                    forall|k: int| start <= k < j ==> !is_space(line@[k]),
                decreases line@.len() - j,
            {
                j = j + 1;
            }
            let mut tok: Vec<u8> = Vec::new();
            let mut k: usize = start;
            while k < j
                invariant
                    start <= k <= j <= line@.len(),
                    tok@ == line@.subrange(start as int, k as int),
                decreases j - k,
            {
                proof {
                    assert(line@.subrange(start as int, k + 1) =~= line@.subrange(
                        start as int,
                        k as int,
                    ).push(line@[k as int]));
                }
                tok.push(line[k]);
                k = k + 1;
            }
            proof {
                let rest = line@.skip(start as int);
                assert forall|k2: int| 0 <= k2 < j - start implies !is_space(rest[k2]) by {
                    assert(rest[k2] == line@[start + k2]);
                }
                assert(j - start < rest.len() ==> is_space(rest[j - start]));
                lemma_token_len_unique(rest, j - start);
                assert(rest.take(j - start) =~= line@.subrange(start as int, j as int));
                assert(rest.skip(j - start) =~= line@.skip(j as int));
                assert(tokens_of(rest) == seq![tok@] + tokens_of(line@.skip(j as int)));
                let f = |t: Vec<u8>| t@;
                assert(toks@.push(tok).map_values(f) =~= toks@.map_values(f).push(tok@));
                assert(toks@.map_values(f) + (seq![tok@] + tokens_of(line@.skip(j as int)))
                    =~= toks@.map_values(f).push(tok@) + tokens_of(line@.skip(j as int)));
            }
            toks.push(tok);
            i = j;
        }
    }
    proof {
        assert(line@.skip(line@.len() as int) =~= Seq::<u8>::empty());
        assert(toks@.map_values(|t: Vec<u8>| t@) + Seq::<Seq<u8>>::empty() =~= toks@.map_values(
            |t: Vec<u8>| t@,
        ));
    }
    toks
}

/// An ASCII decimal digit.
pub open spec fn is_digit(b: u8) -> bool {
    48 <= b <= 57
}

/// A nonempty, all-digit token: the only shape of a numeric field.
pub open spec fn all_digits(s: Seq<u8>) -> bool {
    s.len() > 0 && forall|k: int| 0 <= k < s.len() ==> is_digit(#[trigger] s[k])
}

/// The number an all-digit token denotes.
pub open spec fn digits_value(s: Seq<u8>) -> int
    decreases s.len(),
{
    if s.len() == 0 {
        0
    } else {
        10 * digits_value(s.drop_last()) + (s.last() - 48)
    }
}

proof fn lemma_digits_value_nonneg(s: Seq<u8>)
    requires
        forall|k: int| 0 <= k < s.len() ==> is_digit(#[trigger] s[k]),
    ensures
        digits_value(s) >= 0,
    decreases s.len(),
{
    if s.len() > 0 {
        lemma_digits_value_nonneg(s.drop_last());
    }
}

/// A longer digit string never denotes a smaller number.
proof fn lemma_digits_value_grows(s: Seq<u8>, k: int)
    requires
        forall|k2: int| 0 <= k2 < s.len() ==> is_digit(#[trigger] s[k2]),
        0 <= k <= s.len(),
    ensures
        digits_value(s.take(k)) <= digits_value(s),
    decreases s.len() - k,
{
    if k == s.len() {
        assert(s.take(k) =~= s);
    } else {
        lemma_digits_value_grows(s, k + 1);
        assert(s.take(k + 1).drop_last() =~= s.take(k));
        assert(s.take(k + 1).last() == s[k]);
        lemma_digits_value_nonneg(s.take(k));
        assert(is_digit(s[k]));
        assert(digits_value(s.take(k + 1)) == 10 * digits_value(s.take(k)) + (s[k] - 48));
    }
}

/// Reads a 64-bit unsigned decimal number, accepting exactly the
/// nonempty all-digit tokens whose value fits.
pub fn parse_u64(t: &[u8]) -> (r: Option<u64>)
    ensures
        match r {
            Some(v) => all_digits(t@) && digits_value(t@) == v,
            None => !all_digits(t@) || digits_value(t@) > u64::MAX,
        },
{
    if t.len() == 0 {
        return None;
    }
    let mut v: u64 = 0;
    let mut k: usize = 0;
    proof {
        assert(t@.take(0) =~= Seq::<u8>::empty());
    }
    while k < t.len()
        invariant
            0 <= k <= t@.len(),
            forall|k2: int| 0 <= k2 < k ==> is_digit(#[trigger] t@[k2]),
            v == digits_value(t@.take(k as int)),
        decreases t@.len() - k,
    {
        let b = t[k];
        if b < 48 || b > 57 {
            return None;
        }
        proof {
            assert(t@.take(k + 1).drop_last() =~= t@.take(k as int));
            assert(t@.take(k + 1).last() == t@[k as int]);
        }
        let digit = (b - 48) as u64;
        let grown = match v.checked_mul(10) {
            Some(m) => m.checked_add(digit),
            None => None,
        };
        match grown {
            Some(next) => {
                v = next;
            },
            None => {
                proof {
                    assert(digits_value(t@.take(k + 1)) > u64::MAX);
                    if all_digits(t@) {
                        lemma_digits_value_grows(t@, k + 1);
                    }
                }
                return None;
            },
        }
        k = k + 1;
    }
    proof {
        assert(t@.take(t@.len() as int) =~= t@);
    }
    Some(v)
}

/// Whether a token denotes a 32-bit unsigned number.
pub open spec fn fits_u32(t: Seq<u8>) -> bool {
    all_digits(t) && digits_value(t) <= u32::MAX
}

/// Whether a token denotes a 64-bit unsigned number.
pub open spec fn fits_u64(t: Seq<u8>) -> bool {
    all_digits(t) && digits_value(t) <= u64::MAX
}

/// Reads a 32-bit unsigned decimal number.
pub fn parse_u32(t: &[u8]) -> (r: Option<u32>)
    ensures
        match r {
            Some(v) => fits_u32(t@) && digits_value(t@) == v,
            None => !fits_u32(t@),
        },
{
    match parse_u64(t) {
        Some(v) => if v <= 0xFFFF_FFFF {
            Some(v as u32)
        } else {
            None
        },
        None => None,
    }
}

/// What parsing a station line yields: the station id and its charger
/// ids, in line order.
pub open spec fn parse_station_spec(line: Seq<u8>) -> Result<(u32, Seq<u32>), DataErrorSpec> {
    let toks = tokens_of(line);
    if toks.len() == 0 {
        Err(DataErrorSpec::InvalidStationId { token: Seq::empty() })
    } else if !fits_u32(toks[0]) {
        Err(DataErrorSpec::InvalidStationId { token: toks[0] })
    } else {
        let sid = digits_value(toks[0]) as u32;
        if exists|k: int| 1 <= k < toks.len() && !fits_u32(#[trigger] toks[k]) {
            Err(DataErrorSpec::InvalidChargerId { station_id: sid })
        } else {
            Ok((sid, Seq::new((toks.len() - 1) as nat, |k: int| digits_value(toks[k + 1]) as u32)))
        }
    }
}

/// Parses one line of the station section, exactly as
/// [`parse_station_spec`] states it: the station id, then the ids of the
/// chargers at that station.
pub fn parse_station(line: &[u8]) -> (r: Result<(u32, Vec<u32>), DataError>)
    ensures
        match r {
            Ok((sid, chargers)) => parse_station_spec(line@) == Ok::<(u32, Seq<u32>), DataErrorSpec>(
                (sid, chargers@),
            ),
            Err(e) => parse_station_spec(line@) == Err::<(u32, Seq<u32>), DataErrorSpec>(e@),
        },
{
    let toks = split_tokens(line);
    let ghost tv = tokens_of(line@);
    if toks.len() == 0 {
        let token: Vec<u8> = Vec::new();
        proof {
            assert(token@ =~= Seq::<u8>::empty());
        }
        return Err(DataError::InvalidStationId { token });
    }
    assert(toks@[0]@ == tv[0]);
    let sid = match parse_u32(toks[0].as_slice()) {
        Some(v) => v,
        None => {
            let mut toks = toks;
            let token = toks.remove(0);
            return Err(DataError::InvalidStationId { token });
        },
    };
    proof {
        lemma_digits_value_nonneg(tv[0]);
        assert(digits_value(tv[0]) as u32 == sid);
    }
    let mut chargers: Vec<u32> = Vec::new();
    let mut k: usize = 1;
    while k < toks.len()
        invariant
            1 <= k <= toks@.len(),
            tv == toks@.map_values(|t: Vec<u8>| t@),
            tv == tokens_of(line@),
            tv.len() > 0,
            fits_u32(tv[0]),
            sid == digits_value(tv[0]) as u32,
            chargers@.len() == k - 1,
            forall|k2: int| 1 <= k2 < k ==> fits_u32(#[trigger] tv[k2]),
            forall|k2: int|
                1 <= k2 < k ==> chargers@[k2 - 1] == digits_value(#[trigger] tv[k2]) as u32,
        decreases toks@.len() - k,
    {
        assert(toks@[k as int]@ == tv[k as int]);
        match parse_u32(toks[k].as_slice()) {
            Some(c) => {
                chargers.push(c);
            },
            None => {
                proof {
                    assert(!fits_u32(tv[k as int]));
                    assert(exists|k2: int| 1 <= k2 < tv.len() && !fits_u32(#[trigger] tv[k2]));
                }
                return Err(DataError::InvalidChargerId { station_id: sid });
            },
        }
        k = k + 1;
    }
    proof {
        assert(chargers@ =~= Seq::new(
            (tv.len() - 1) as nat,
            |k: int| digits_value(tv[k + 1]) as u32,
        ));
    }
    Ok((sid, chargers))
}

/// The one spelling of a reachable flag.
pub open spec fn true_token() -> Seq<u8> {
    "true".spec_bytes()
}

/// The other accepted spelling.  Nothing else, and no other case, means
/// reachable.
pub open spec fn pascal_true_token() -> Seq<u8> {
    "True".spec_bytes()
}

/// Returns whether two byte strings are equal.
pub fn bytes_eq(a: &[u8], b: &[u8]) -> (r: bool)
    ensures
        r == (a@ == b@),
{
    if a.len() != b.len() {
        proof {
            if a@ == b@ {
                assert(a@.len() == b@.len());
            }
        }
        return false;
    }
    let mut i: usize = 0;
    while i < a.len()
        invariant
            0 <= i <= a@.len(),
            a@.len() == b@.len(),
            forall|k: int| 0 <= k < i ==> a@[k] == b@[k],
        decreases a@.len() - i,
    {
        if a[i] != b[i] {
            return false;
        }
        i = i + 1;
    }
    proof {
        assert(a@ =~= b@);
    }
    true
}

/// Returns whether the token is a nonempty run of decimal digits.
fn token_all_digits(t: &[u8]) -> (r: bool)
    ensures
        r == all_digits(t@),
{
    if t.len() == 0 {
        return false;
    }
    let mut i: usize = 0;
    while i < t.len()
        invariant
            0 <= i <= t@.len(),
            forall|k: int| 0 <= k < i ==> is_digit(#[trigger] t@[k]),
        decreases t@.len() - i,
    {
        if t[i] < 48 || t[i] > 57 {
            return false;
        }
        i = i + 1;
    }
    true
}

/// What parsing a report line yields: the charger id and the reported
/// window.  The first three tokens must be decimal numbers; a fourth
/// token is the reachability flag, and any value of it other than the
/// literal `true` or `True` — or its absence — means unreachable.
pub open spec fn parse_report_spec(line: Seq<u8>) -> Result<(u32, TimeRange), DataErrorSpec> {
    let toks = tokens_of(line);
    if toks.len() < 3 || toks.len() > 4 {
        Err(DataErrorSpec::MalformedReport)
    } else if !all_digits(toks[0]) || !all_digits(toks[1]) || !all_digits(toks[2]) {
        Err(DataErrorSpec::MalformedReport)
    } else if digits_value(toks[0]) > u32::MAX {
        Err(DataErrorSpec::ReportChargerIdOutOfRange)
    } else {
        let cid = digits_value(toks[0]) as u32;
        if digits_value(toks[1]) > u64::MAX {
            Err(DataErrorSpec::ReportStartOutOfRange { charger_id: cid })
        } else if digits_value(toks[2]) > u64::MAX {
            Err(DataErrorSpec::ReportEndOutOfRange { charger_id: cid })
        } else {
            let from = digits_value(toks[1]) as u64;
            let to = digits_value(toks[2]) as u64;
            let up = toks.len() == 4 && (toks[3] == true_token() || toks[3]
                == pascal_true_token());
            if from > to {
                Err(DataErrorSpec::InvalidWindow { charger_id: cid })
            } else {
                Ok((cid, TimeRange { from, to, up }))
            }
        }
    }
}

/// Parses one line of the report section, exactly as
/// [`parse_report_spec`] states it: the charger id and its reported
/// window, rejecting windows that end before they start.
pub fn parse_charger_availability(line: &[u8]) -> (r: Result<(u32, TimeRange), DataError>)
    ensures
        match r {
            Ok((cid, w)) => parse_report_spec(line@) == Ok::<(u32, TimeRange), DataErrorSpec>(
                (cid, w),
            ) && w.valid(),
            Err(e) => parse_report_spec(line@) == Err::<(u32, TimeRange), DataErrorSpec>(e@),
        },
{
    let toks = split_tokens(line);
    let ghost tv = tokens_of(line@);
    if toks.len() < 3 || toks.len() > 4 {
        return Err(DataError::MalformedReport);
    }
    assert(toks@[0]@ == tv[0] && toks@[1]@ == tv[1] && toks@[2]@ == tv[2]);
    if !token_all_digits(toks[0].as_slice()) || !token_all_digits(toks[1].as_slice())
        || !token_all_digits(toks[2].as_slice()) {
        return Err(DataError::MalformedReport);
    }
    proof {
        lemma_digits_value_nonneg(tv[0]);
        lemma_digits_value_nonneg(tv[1]);
        lemma_digits_value_nonneg(tv[2]);
    }
    let cid = match parse_u32(toks[0].as_slice()) {
        Some(v) => v,
        None => {
            return Err(DataError::ReportChargerIdOutOfRange);
        },
    };
    assert(cid == digits_value(tv[0]) as u32);
    let from = match parse_u64(toks[1].as_slice()) {
        Some(v) => v,
        None => {
            return Err(DataError::ReportStartOutOfRange { charger_id: cid });
        },
    };
    let to = match parse_u64(toks[2].as_slice()) {
        Some(v) => v,
        None => {
            return Err(DataError::ReportEndOutOfRange { charger_id: cid });
        },
    };
    let up = if toks.len() == 4 {
        assert(toks@[3]@ == tv[3]);
        bytes_eq(toks[3].as_slice(), "true".as_bytes()) || bytes_eq(
            toks[3].as_slice(),
            "True".as_bytes(),
        )
    } else {
        false
    };
    if from > to {
        return Err(DataError::InvalidWindow { charger_id: cid });
    }
    Ok((cid, TimeRange { from, to, up }))
}

} // verus!
