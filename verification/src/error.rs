//! The error a run aborts with.
//!
//! Every variant is fatal to the whole computation: the input is one
//! cohesive export, and a structural inconsistency anywhere casts doubt on
//! all of it, so no partial results are produced.

use vstd::prelude::*;
use vstd::string::StringExecFns;

verus! {

/// Why a run was aborted.  Parsing errors carry the identifier (or the
/// offending token) they were detected at, so the caller can surface it.
#[derive(Debug, PartialEq, Eq)]
pub enum DataError {
    /// A data line appeared before any section header.
    UnexpectedDataLine,
    /// The first token of a station line is not a 32-bit unsigned integer.
    InvalidStationId { token: Vec<u8> },
    /// A charger token of a station line is not a 32-bit unsigned integer.
    InvalidChargerId { station_id: u32 },
    /// A report line does not have the expected token shape.
    MalformedReport,
    /// The charger token of a report line exceeds 32 bits.
    ReportChargerIdOutOfRange,
    /// The start-time token of a report line exceeds 64 bits.
    ReportStartOutOfRange { charger_id: u32 },
    /// The end-time token of a report line exceeds 64 bits.
    ReportEndOutOfRange { charger_id: u32 },
    /// A reported window starts after it ends.
    InvalidWindow { charger_id: u32 },
    /// Two windows of one unit overlap but disagree on reachability.
    OverlappingWindows,
    /// [`DataError::OverlappingWindows`], attributed to the unit it was
    /// detected at.
    ConflictingReport { charger_id: u32 },
}

/// The mathematical shadow of [`DataError`]: the same variants with the
/// offending token as a byte sequence, so contracts can state exactly
/// which error an input produces.
pub enum DataErrorSpec {
    UnexpectedDataLine,
    InvalidStationId { token: Seq<u8> },
    InvalidChargerId { station_id: u32 },
    MalformedReport,
    ReportChargerIdOutOfRange,
    ReportStartOutOfRange { charger_id: u32 },
    ReportEndOutOfRange { charger_id: u32 },
    InvalidWindow { charger_id: u32 },
    OverlappingWindows,
    ConflictingReport { charger_id: u32 },
}

/// The decimal digits of a non-negative number, most significant first.
pub open spec fn dec_bytes(n: int) -> Seq<u8>
    decreases n,
    when n >= 0
{
    if n < 10 {
        seq![(48 + n) as u8]
    } else {
        dec_bytes(n / 10).push((48 + n % 10) as u8)
    }
}

/// The same digits as characters.
pub open spec fn dec_chars(n: int) -> Seq<char> {
    dec_bytes(n).map_values(|b: u8| b as char)
}

/// Bytes that decode to one character each.
pub open spec fn is_ascii_bytes(s: Seq<u8>) -> bool {
    forall|k: int| 0 <= k < s.len() ==> #[trigger] s[k] < 128
}

/// ASCII bytes read as characters.
pub open spec fn ascii_chars(s: Seq<u8>) -> Seq<char> {
    s.map_values(|b: u8| b as char)
}

/// The message a run aborts with, character for character.
pub open spec fn spec_message(e: DataErrorSpec) -> Seq<char> {
    match e {
        DataErrorSpec::UnexpectedDataLine => "Invalid file format. Unable to read file."@,
        DataErrorSpec::InvalidStationId { token } => "Invalid station ID: '"@ + ascii_chars(token)
            + "'"@,
        DataErrorSpec::InvalidChargerId { station_id } => "Invalid station entry for Station ID: "@
            + dec_chars(station_id as int) + ".\nCould not parse charger ID."@,
        DataErrorSpec::MalformedReport => "Could not parse charger availability entry. Please check the input file."@,
        DataErrorSpec::ReportChargerIdOutOfRange => "Invalid charger availability entry.\nCould not parse charger ID."@,
        DataErrorSpec::ReportStartOutOfRange { charger_id } => "Invalid charger availability entry.\nCould not parse start time for charger ID: "@
            + dec_chars(charger_id as int) + "."@,
        DataErrorSpec::ReportEndOutOfRange { charger_id } => "Invalid charger availability entry.\nCould not parse end time for charger ID: "@
            + dec_chars(charger_id as int) + "."@,
        DataErrorSpec::InvalidWindow { charger_id } => "Invalid charger availability entry for charger ID "@
            + dec_chars(charger_id as int) + "!\nAvailability from is after availability to."@,
        DataErrorSpec::OverlappingWindows => "Conflicting charger reports. Overlapping windows for the same charger."@,
        DataErrorSpec::ConflictingReport { charger_id } => "Conflicting availability entries found for charger "@
            + dec_chars(charger_id as int),
    }
}

/// Whether the message is rendered character-exactly: only an offending
/// token that is not ASCII is rendered lossily.
pub open spec fn message_renderable(e: DataErrorSpec) -> bool {
    match e {
        DataErrorSpec::InvalidStationId { token } => is_ascii_bytes(token),
        _ => true,
    }
}

proof fn lemma_dec_bytes_ascii(n: int)
    requires
        n >= 0,
    ensures
        forall|k: int| 0 <= k < dec_bytes(n).len() ==> 48 <= #[trigger] dec_bytes(n)[k] <= 57,
    decreases n,
{
    if n >= 10 {
        lemma_dec_bytes_ascii(n / 10);
        let d = dec_bytes(n);
        assert forall|k: int| 0 <= k < d.len() implies 48 <= #[trigger] d[k] <= 57 by {
            if k < d.len() - 1 {
                assert(d[k] == dec_bytes(n / 10)[k]);
            } else {
                assert(0 <= n % 10 <= 9);
                assert(d[k] == (48 + n % 10) as u8);
            }
        }
    } else {
        assert(dec_bytes(n)[0] == (48 + n) as u8);
    }
}

/// Writes a number in decimal, exactly as [`dec_bytes`] states it.
fn u64_to_dec(n: u64) -> (r: Vec<u8>)
    ensures
        r@ == dec_bytes(n as int),
    decreases n,
{
    if n < 10 {
        let mut r: Vec<u8> = Vec::new();
        r.push(48 + (n as u8));
        proof {
            assert(r@ =~= dec_bytes(n as int));
        }
        r
    } else {
        let mut r = u64_to_dec(n / 10);
        r.push(48 + ((n % 10) as u8));
        r
    }
}

/// Relies on `String::from_utf8_lossy`: ASCII bytes decode to one
/// character per byte, each with the byte's code.
#[verifier::external_body]
fn bytes_to_string(bytes: &Vec<u8>) -> (r: String)
    ensures
        is_ascii_bytes(bytes@) ==> r@ == ascii_chars(bytes@),
{
    String::from_utf8_lossy(bytes.as_slice()).into_owned()
}

/// Writes a number in decimal, exactly as [`dec_chars`] states it.
fn dec_string(n: u64) -> (r: String)
    ensures
        r@ == dec_chars(n as int),
{
    let digits = u64_to_dec(n);
    proof {
        lemma_dec_bytes_ascii(n as int);
    }
    bytes_to_string(&digits)
}

impl DataError {
    /// The message surfaced for this error: the kind and the offending
    /// identifier or token.  Exactly [`spec_message`], except that an
    /// offending token that is not ASCII is rendered lossily.
    pub fn message(&self) -> (r: String)
        ensures
            message_renderable(self@) ==> r@ == spec_message(self@),
    {
        match self {
            DataError::UnexpectedDataLine => "Invalid file format. Unable to read file.".to_owned(),
            DataError::InvalidStationId { token } => {
                let mut s = "Invalid station ID: '".to_owned();
                s.append(bytes_to_string(token).as_str());
                s.append("'");
                s
            },
            DataError::InvalidChargerId { station_id } => {
                let mut s = "Invalid station entry for Station ID: ".to_owned();
                s.append(dec_string(*station_id as u64).as_str());
                s.append(".\nCould not parse charger ID.");
                s
            },
            DataError::MalformedReport => {
                "Could not parse charger availability entry. Please check the input file.".to_owned()
            },
            DataError::ReportChargerIdOutOfRange => {
                "Invalid charger availability entry.\nCould not parse charger ID.".to_owned()
            },
            DataError::ReportStartOutOfRange { charger_id } => {
                let mut s =
                    "Invalid charger availability entry.\nCould not parse start time for charger ID: ".to_owned();
                s.append(dec_string(*charger_id as u64).as_str());
                s.append(".");
                s
            },
            DataError::ReportEndOutOfRange { charger_id } => {
                let mut s =
                    "Invalid charger availability entry.\nCould not parse end time for charger ID: ".to_owned();
                s.append(dec_string(*charger_id as u64).as_str());
                s.append(".");
                s
            },
            DataError::InvalidWindow { charger_id } => {
                let mut s = "Invalid charger availability entry for charger ID ".to_owned();
                s.append(dec_string(*charger_id as u64).as_str());
                s.append("!\nAvailability from is after availability to.");
                s
            },
            DataError::OverlappingWindows => {
                "Conflicting charger reports. Overlapping windows for the same charger.".to_owned()
            },
            DataError::ConflictingReport { charger_id } => {
                let mut s = "Conflicting availability entries found for charger ".to_owned();
                s.append(dec_string(*charger_id as u64).as_str());
                s
            },
        }
    }
}

impl View for DataError {
    type V = DataErrorSpec;

    open spec fn view(&self) -> DataErrorSpec {
        match self {
            DataError::UnexpectedDataLine => DataErrorSpec::UnexpectedDataLine,
            DataError::InvalidStationId { token } => DataErrorSpec::InvalidStationId {
                token: token@,
            },
            DataError::InvalidChargerId { station_id } => DataErrorSpec::InvalidChargerId {
                station_id: *station_id,
            },
            DataError::MalformedReport => DataErrorSpec::MalformedReport,
            DataError::ReportChargerIdOutOfRange => DataErrorSpec::ReportChargerIdOutOfRange,
            DataError::ReportStartOutOfRange { charger_id } => DataErrorSpec::ReportStartOutOfRange {
                charger_id: *charger_id,
            },
            DataError::ReportEndOutOfRange { charger_id } => DataErrorSpec::ReportEndOutOfRange {
                charger_id: *charger_id,
            },
            DataError::InvalidWindow { charger_id } => DataErrorSpec::InvalidWindow {
                charger_id: *charger_id,
            },
            DataError::OverlappingWindows => DataErrorSpec::OverlappingWindows,
            DataError::ConflictingReport { charger_id } => DataErrorSpec::ConflictingReport {
                charger_id: *charger_id,
            },
        }
    }
}

} // verus!
