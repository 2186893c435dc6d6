//! Building the two association structures from the lines of an export.
//!
//! The input is line-oriented, in two sections introduced by literal
//! header lines.  Blank lines are ignored; a data line before any header
//! is a fatal error, as is any malformed record.  The whole input is
//! validated before any percentage is computed.

use vstd::prelude::*;
use vstd::string::StringSliceAdditionalSpecFns;
use crate::error::{DataError, DataErrorSpec};
use crate::maps::{map_add_report, map_add_station, ChargerUptimeMap, StationChargerMap};
use crate::parse::{
    is_space, parse_charger_availability, parse_report_spec, parse_station, parse_station_spec,
};
use crate::window::TimeRange;

verus! {

/// Which section the reader is in.
pub enum InputKind {
    /// No section header seen yet: a data line here is fatal.
    BeforeAnySection,
    /// Inside `[Stations]`.
    StationSection,
    /// Inside `[Charger Availability Reports]`.
    ReportSection,
}

/// The header opening the station section.
pub open spec fn stations_header() -> Seq<u8> {
    "[Stations]".spec_bytes()
}

/// The header opening the report section.
pub open spec fn reports_header() -> Seq<u8> {
    "[Charger Availability Reports]".spec_bytes()
}

/// The line with its leading spaces removed.
pub open spec fn trim_front(s: Seq<u8>) -> Seq<u8>
    decreases s.len(),
{
    if s.len() > 0 && is_space(s[0]) {
        trim_front(s.drop_first())
    } else {
        s
    }
}

/// The line with its trailing spaces removed.
pub open spec fn trim_back(s: Seq<u8>) -> Seq<u8>
    decreases s.len(),
{
    if s.len() > 0 && is_space(s.last()) {
        trim_back(s.drop_last())
    } else {
        s
    }
}

/// The line with surrounding spaces removed, as the section headers are
/// matched.
pub open spec fn trim_spec(s: Seq<u8>) -> Seq<u8> {
    trim_back(trim_front(s))
}

proof fn lemma_trim_front_at(s: Seq<u8>, a: int)
    requires
        0 <= a <= s.len(),
        forall|k: int| 0 <= k < a ==> is_space(s[k]),
        a < s.len() ==> !is_space(s[a]),
    ensures
        trim_front(s) == s.skip(a),
    decreases a,
{
    if a == 0 {
        assert(s.skip(0) =~= s);
    } else {
        assert(is_space(s[0]));
        let t = s.drop_first();
        assert forall|k: int| 0 <= k < a - 1 implies is_space(t[k]) by {
            assert(t[k] == s[k + 1]);
        }
        lemma_trim_front_at(t, a - 1);
        assert(t.skip(a - 1) =~= s.skip(a));
    }
}

proof fn lemma_trim_back_at(s: Seq<u8>, b: int)
    requires
        0 <= b <= s.len(),
        forall|k: int| b <= k < s.len() ==> is_space(s[k]),
        b > 0 ==> !is_space(s[b - 1]),
    ensures
        trim_back(s) == s.take(b),
    decreases s.len(),
{
    if b == s.len() {
        if s.len() > 0 {
            assert(!is_space(s.last()));
        }
        assert(s.take(b) =~= s);
    } else {
        assert(is_space(s.last()));
        let t = s.drop_last();
        assert(t =~= s.take(s.len() - 1));
        assert forall|k: int| b <= k < t.len() implies is_space(t[k]) by {
            assert(t[k] == s[k]);
        }
        lemma_trim_back_at(t, b);
        assert(t.take(b) =~= s.take(b));
    }
}

/// Removes surrounding whitespace, exactly as [`trim_spec`] states it.
fn trim_line(line: &Vec<u8>) -> (r: Vec<u8>)
    ensures
        r@ == trim_spec(line@),
{
    let mut a: usize = 0;
    while a < line.len() && crate::parse::byte_is_space(line[a])
        invariant
            0 <= a <= line@.len(),
            forall|k: int| 0 <= k < a ==> is_space(line@[k]),
        decreases line@.len() - a,
    {
        a = a + 1;
    }
    proof {
        lemma_trim_front_at(line@, a as int);
    }
    if a == line.len() {
        let r: Vec<u8> = Vec::new();
        proof {
            assert(line@.skip(a as int) =~= Seq::<u8>::empty());
            assert(trim_back(Seq::<u8>::empty()) =~= Seq::<u8>::empty());
            assert(r@ =~= Seq::<u8>::empty());
        }
        return r;
    }
    let mut b: usize = line.len();
    while b > a + 1 && crate::parse::byte_is_space(line[b - 1])
        invariant
            a < b <= line@.len(),
            forall|k: int| b <= k < line@.len() ==> is_space(line@[k]),
        decreases b,
    {
        b = b - 1;
    }
    proof {
        let t = line@.skip(a as int);
        assert forall|k: int| b - a <= k < t.len() implies is_space(t[k]) by {
            assert(t[k] == line@[a + k]);
        }
        assert(!is_space(line@[a as int]));
        if b > a + 1 {
            assert(!is_space(line@[b - 1]));
            assert(t[b - 1 - a] == line@[b - 1]);
        } else {
            assert(t[0] == line@[a as int]);
        }
        lemma_trim_back_at(t, b - a);
    }
    let mut r: Vec<u8> = Vec::new();
    let mut k: usize = a;
    while k < b
        invariant
            a <= k <= b <= line@.len(),
            r@ == line@.subrange(a as int, k as int),
        decreases b - k,
    {
        proof {
            assert(line@.subrange(a as int, k + 1) =~= line@.subrange(a as int, k as int).push(
                line@[k as int],
            ));
        }
        r.push(line[k]);
        k = k + 1;
    }
    proof {
        assert(line@.subrange(a as int, b as int) =~= line@.skip(a as int).take(b - a));
    }
    r
}

/// The fold of the remaining lines over the reader state: the section
/// mode and the two tables built so far.
pub open spec fn build_from(
    lines: Seq<Seq<u8>>,
    i: int,
    mode: InputKind,
    sm: Seq<(u32, Seq<u32>)>,
    cm: Seq<(u32, Seq<TimeRange>)>,
) -> Result<(Seq<(u32, Seq<u32>)>, Seq<(u32, Seq<TimeRange>)>), DataErrorSpec>
    decreases lines.len() - i,
{
    if i < 0 || i >= lines.len() {
        Ok((sm, cm))
    } else {
        let t = trim_spec(lines[i]);
        if t.len() == 0 {
            build_from(lines, i + 1, mode, sm, cm)
        } else if t == stations_header() {
            build_from(lines, i + 1, InputKind::StationSection, sm, cm)
        } else if t == reports_header() {
            build_from(lines, i + 1, InputKind::ReportSection, sm, cm)
        } else {
            match mode {
                InputKind::BeforeAnySection => Err(DataErrorSpec::UnexpectedDataLine),
                InputKind::StationSection => match parse_station_spec(t) {
                    Err(e) => Err(e),
                    Ok((sid, cs)) => build_from(
                        lines,
                        i + 1,
                        mode,
                        map_add_station(sm, sid, cs),
                        cm,
                    ),
                },
                InputKind::ReportSection => match parse_report_spec(t) {
                    Err(e) => Err(e),
                    Ok((cid, w)) => build_from(lines, i + 1, mode, sm, map_add_report(cm, cid, w)),
                },
            }
        }
    }
}

/// What [`construct_maps`] yields for a whole export.
pub open spec fn build_spec(lines: Seq<Seq<u8>>) -> Result<
    (Seq<(u32, Seq<u32>)>, Seq<(u32, Seq<TimeRange>)>),
    DataErrorSpec,
> {
    build_from(lines, 0, InputKind::BeforeAnySection, Seq::empty(), Seq::empty())
}

/// Reads a whole export, line by line, into the station-membership and
/// charger-report tables, exactly as [`build_spec`] states it.  The first
/// malformed line aborts the read.
pub fn construct_maps(lines: &Vec<Vec<u8>>) -> (r: Result<
    (StationChargerMap, ChargerUptimeMap),
    DataError,
>)
    ensures
        match r {
            Ok(maps) => build_spec(lines@.map_values(|l: Vec<u8>| l@)) == Ok::<
                (Seq<(u32, Seq<u32>)>, Seq<(u32, Seq<TimeRange>)>),
                DataErrorSpec,
            >((maps.0@, maps.1@)) && maps.0.wf() && maps.1.wf(),
            Err(e) => build_spec(lines@.map_values(|l: Vec<u8>| l@)) == Err::<
                (Seq<(u32, Seq<u32>)>, Seq<(u32, Seq<TimeRange>)>),
                DataErrorSpec,
            >(e@),
        },
{
    let ghost ls = lines@.map_values(|l: Vec<u8>| l@);
    let mut sm = StationChargerMap::new();
    let mut cm = ChargerUptimeMap::new();
    let mut mode = InputKind::BeforeAnySection;
    let mut i: usize = 0;
    while i < lines.len()
        invariant
            0 <= i <= ls.len(),
            ls == lines@.map_values(|l: Vec<u8>| l@),
            sm.wf(),
            cm.wf(),
            build_from(ls, i as int, mode, sm@, cm@) == build_spec(ls),
        decreases ls.len() - i,
    {
        assert(ls[i as int] == lines@[i as int]@);
        let trimmed = trim_line(&lines[i]);
        if trimmed.len() == 0 {
        } else if crate::parse::bytes_eq(trimmed.as_slice(), "[Stations]".as_bytes()) {
            mode = InputKind::StationSection;
        } else if crate::parse::bytes_eq(
            trimmed.as_slice(),
            "[Charger Availability Reports]".as_bytes(),
        ) {
            mode = InputKind::ReportSection;
        } else {
            match mode {
                InputKind::BeforeAnySection => {
                    return Err(DataError::UnexpectedDataLine);
                },
                InputKind::StationSection => {
                    match parse_station(trimmed.as_slice()) {
                        Ok((sid, chargers)) => {
                            sm.add_station(sid, &chargers);
                        },
                        Err(e) => {
                            return Err(e);
                        },
                    }
                },
                InputKind::ReportSection => {
                    match parse_charger_availability(trimmed.as_slice()) {
                        Ok((cid, w)) => {
                            cm.add_report(cid, w);
                        },
                        Err(e) => {
                            return Err(e);
                        },
                    }
                },
            }
        }
        i = i + 1;
    }
    Ok((sm, cm))
}

} // verus!
