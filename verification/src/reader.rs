//! The lines of a statistics file, already split at `|` into fields, read
//! as header, summary and record lines.
use vstd::prelude::*;
use chrono::{Datelike, TimeZone, Utc};
use crate::data::{RIPDate, RIPHeader, RIPRecord, RIPRegistry, RIPSummary, RIPSummaryTyp};
use crate::decimal::{decimal, parse_decimal, parse_unsigned};
use crate::ipv4_laws::decimal_reads_back;
use crate::text::str_equals;

verus! {

// ---------------------------------------------------------------------------
// Calls into std and chrono
// ---------------------------------------------------------------------------

/// What `str::to_lowercase` gives for a text: its Unicode lowercase mapping,
/// a function of the text alone.
pub uninterp spec fn lowercase(s: Seq<char>) -> Seq<char>;

/// No ASCII upper-case letter occurs in the text.
pub open spec fn no_ascii_upper(s: Seq<char>) -> bool {
    forall|i: int| 0 <= i < s.len() ==> !('A' <= #[trigger] s[i] && s[i] <= 'Z')
}

/// Calls `str::to_lowercase`. Claims that the result is `lowercase` of the
/// argument, and that it holds no ASCII upper-case letter: std maps every
/// character by its Unicode lowercase mapping, which takes `A`..=`Z` to
/// `a`..=`z` and yields no upper-case letter for any character.
#[verifier::external_body]
fn to_lowercase(s: &str) -> (r: String)
    ensures
        r@ == lowercase(s@),
        no_ascii_upper(r@),
{
    s.to_lowercase()
}

/// The calendar day (year, month, day) of the time that chrono's
/// `Utc.datetime_from_str(s, fmt)` reads from `s` by the strftime format
/// `fmt`, or `None` where it reports an error; a function of the two texts.
pub uninterp spec fn utc_datetime_day(s: Seq<char>, fmt: Seq<char>) -> Option<(i32, u32, u32)>;

/// Calls chrono's `TimeZone::datetime_from_str` on `Utc` and takes year,
/// month and day of the result. Claims that the result is `utc_datetime_day`
/// of the two texts, and, as chrono's `Datelike` documents, that month and
/// day lie in 1..=12 and 1..=31.
#[verifier::external_body]
#[allow(deprecated)]
fn utc_day_from_str(s: &str, fmt: &str) -> (r: Option<(i32, u32, u32)>)
    ensures
        r == utc_datetime_day(s@, fmt@),
        r matches Some(d) ==> 1 <= d.1 <= 12 && 1 <= d.2 <= 31,
{
    match Utc.datetime_from_str(s, fmt) {
        Ok(t) => Some((t.year(), t.month(), t.day())),
        Err(_) => None,
    }
}

// ---------------------------------------------------------------------------
// Fields
// ---------------------------------------------------------------------------

/// The text of field `i`, if the line has that many fields.
pub open spec fn field(fields: Seq<String>, i: int) -> Option<Seq<char>> {
    if 0 <= i < fields.len() {
        Some(fields[i]@)
    } else {
        None
    }
}

/// A field read as an unsigned number no larger than `max`; `0` when the
/// field is missing or is no such number.
pub open spec fn field_number(fields: Seq<String>, i: int, max: nat) -> nat {
    match field(fields, i) {
        Some(t) => match parse_unsigned(t, max) {
            Some(v) => v,
            None => 0,
        },
        None => 0,
    }
}

/// A field's text, empty when the field is missing.
pub open spec fn field_text(fields: Seq<String>, i: int) -> Seq<char> {
    match field(fields, i) {
        Some(t) => t,
        None => Seq::<char>::empty(),
    }
}

/// The registry that a lowercased name stands for. The names `ARIN` and
/// `LACNIC` are compared in upper case, and anything not matched stands for
/// RIPE NCC.
pub open spec fn registry_named(lower: Seq<char>) -> RIPRegistry {
    if lower == "apnic"@ {
        RIPRegistry::APNIC
    } else if lower == "afrinic"@ {
        RIPRegistry::AFRINIC
    } else if lower == "ARIN"@ {
        RIPRegistry::ARIN
    } else if lower == "iana"@ {
        RIPRegistry::IANA
    } else if lower == "LACNIC"@ {
        RIPRegistry::LACNIC
    } else {
        RIPRegistry::RIPENCC
    }
}

/// The registry in field `i`; RIPE NCC when the field is missing.
pub open spec fn field_registry(fields: Seq<String>, i: int) -> RIPRegistry {
    match field(fields, i) {
        Some(t) => registry_named(lowercase(t)),
        None => RIPRegistry::RIPENCC,
    }
}

/// The kind that a lowercased name stands for: `ipv4`, `ipv6`, and AS
/// numbers for anything else.
pub open spec fn kind_named(lower: Seq<char>) -> RIPSummaryTyp {
    if lower == "ipv4"@ {
        RIPSummaryTyp::IPV4
    } else if lower == "ipv6"@ {
        RIPSummaryTyp::IPV6
    } else {
        RIPSummaryTyp::ASN
    }
}

/// The kind in field `i`; AS numbers when the field is missing.
pub open spec fn field_kind(fields: Seq<String>, i: int) -> RIPSummaryTyp {
    match field(fields, i) {
        Some(t) => kind_named(lowercase(t)),
        None => RIPSummaryTyp::ASN,
    }
}

/// The format by which a date field, with a midnight time appended, is read.
pub open spec fn date_format() -> Seq<char> {
    "%Y%m%d%H%M%S"@
}

/// The day that a date field `yyyymmdd` gives, read with the time
/// `000000` appended; `None` when chrono rejects it.
pub open spec fn day_of_text(t: Seq<char>) -> Option<(i32, u32, u32)> {
    utc_datetime_day(t + "000000"@, date_format())
}

/// The date that field text `t` gives: the day that the text writes, or
/// `today` when the field is missing or chrono cannot read it.
pub open spec fn date_of_field(t: Option<Seq<char>>, today: RIPDate) -> RIPDate {
    match t {
        Some(t) => match day_of_text(t) {
            Some(v) => RIPDate { year: v.0, month: v.1, day: v.2 },
            None => today,
        },
        None => today,
    }
}

fn field_ref(record: &Vec<String>, inx: usize) -> (r: Option<&str>)
    ensures
        match r {
            Some(t) => field(record@, inx as int) == Some(t@),
            None => field(record@, inx as int) is None,
        },
{
    if inx < record.len() {
        Some(record[inx].as_str())
    } else {
        None
    }
}

/// The format version in field 0; `0` when it is missing or no number below 256.
pub fn parse_version(record: &Vec<String>) -> (r: u8)
    ensures
        r == field_number(record@, 0, 255),
{
    match field_ref(record, 0) {
        Some(c) => match parse_decimal(c, 255) {
            Some(v) => v as u8,
            None => 0,
        },
        None => 0,
    }
}

/// The registry that a lowercased name stands for (`registry_named`).
pub fn registry_from_lowercase(lower: &str) -> (r: RIPRegistry)
    ensures
        r == registry_named(lower@),
{
    if str_equals(lower, "apnic") {
        RIPRegistry::APNIC
    } else if str_equals(lower, "afrinic") {
        RIPRegistry::AFRINIC
    } else if str_equals(lower, "ARIN") {
        RIPRegistry::ARIN
    } else if str_equals(lower, "iana") {
        RIPRegistry::IANA
    } else if str_equals(lower, "LACNIC") {
        RIPRegistry::LACNIC
    } else {
        RIPRegistry::RIPENCC
    }
}

/// A text without ASCII upper-case letters names neither `ARIN` nor `LACNIC`.
proof fn lemma_lowercase_names_no_upper_registry(lower: Seq<char>)
    requires
        no_ascii_upper(lower),
    ensures
        registry_named(lower) != RIPRegistry::ARIN,
        registry_named(lower) != RIPRegistry::LACNIC,
{
    reveal_strlit("ARIN");
    reveal_strlit("LACNIC");
    if lower == "ARIN"@ {
        assert(lower[0] == 'A');
    }
    if lower == "LACNIC"@ {
        assert(lower[0] == 'L');
    }
}

/// The registry named in field `inx`. Since the field is lowercased first,
/// it is never ARIN or LACNIC, whose names are compared in upper case.
pub fn parse_registry(record: &Vec<String>, inx: usize) -> (r: RIPRegistry)
    ensures
        r == field_registry(record@, inx as int),
        r != RIPRegistry::ARIN,
        r != RIPRegistry::LACNIC,
{
    match field_ref(record, inx) {
        Some(val) => {
            let lower = to_lowercase(val);
            proof {
                lemma_lowercase_names_no_upper_registry(lower@);
            }
            registry_from_lowercase(lower.as_str())
        },
        None => RIPRegistry::RIPENCC,
    }
}

/// Field `inx` read as a `u32`; `0` when it is missing or no such number.
pub fn parse_u32(record: &Vec<String>, inx: usize) -> (r: u32)
    ensures
        r == field_number(record@, inx as int, u32::MAX as nat),
{
    match field_ref(record, inx) {
        Some(val) => match parse_decimal(val, 0xffff_ffff) {
            Some(v) => v as u32,
            None => 0,
        },
        None => 0,
    }
}

/// The day that `date_str` (`yyyymmdd`) writes; `today` when chrono
/// cannot read it.
pub fn parse_date(date_str: &str, today: RIPDate) -> (r: RIPDate)
    ensures
        r == date_of_field(Some(date_str@), today),
{
    let with_time = String::from_str(date_str).concat("000000");
    match utc_day_from_str(with_time.as_str(), "%Y%m%d%H%M%S") {
        Some(d) => RIPDate { year: d.0, month: d.1, day: d.2 },
        None => today,
    }
}

/// The date in field `inx`; `today` when it is missing or unreadable.
pub fn parse_record_date(record: &Vec<String>, inx: usize, today: RIPDate) -> (r: RIPDate)
    ensures
        r == date_of_field(field(record@, inx as int), today),
{
    match field_ref(record, inx) {
        Some(val) => parse_date(val, today),
        None => today,
    }
}

/// The kind of resource that a lowercased name stands for (`kind_named`).
pub fn kind_from_lowercase(lower: &str) -> (r: RIPSummaryTyp)
    ensures
        r == kind_named(lower@),
{
    if str_equals(lower, "ipv4") {
        RIPSummaryTyp::IPV4
    } else if str_equals(lower, "ipv6") {
        RIPSummaryTyp::IPV6
    } else {
        RIPSummaryTyp::ASN
    }
}

/// The kind of resource named in field `inx`.
pub fn parse_summary_typ(record: &Vec<String>, inx: usize) -> (r: RIPSummaryTyp)
    ensures
        r == field_kind(record@, inx as int),
{
    match field_ref(record, inx) {
        Some(val) => {
            let lower = to_lowercase(val);
            kind_from_lowercase(lower.as_str())
        },
        None => RIPSummaryTyp::ASN,
    }
}

/// The text of field `inx`; empty when it is missing.
pub fn parse_string(record: &Vec<String>, inx: usize) -> (r: String)
    ensures
        r@ == field_text(record@, inx as int),
{
    match field_ref(record, inx) {
        Some(val) => String::from_str(val),
        None => String::new(),
    }
}

// ---------------------------------------------------------------------------
// Lines
// ---------------------------------------------------------------------------

/// What holds of a header read from the fields of a line.
pub open spec fn header_read_from(fields: Seq<String>, today: RIPDate, h: RIPHeader) -> bool {
    &&& h.version == field_number(fields, 0, 255)
    &&& h.registry == field_registry(fields, 1)
    &&& h.registry != RIPRegistry::ARIN && h.registry != RIPRegistry::LACNIC
    &&& h.serial@ == field_text(fields, 2)
    &&& h.records == field_number(fields, 3, u32::MAX as nat)
    &&& h.start_date == date_of_field(field(fields, 4), today)
    &&& h.end_date == date_of_field(field(fields, 5), today)
}

/// The header that a line of seven fields gives (`version|registry|serial|
/// records|startdate|enddate|UTCoffset`); `None` for any other line. A date
/// that cannot be read is `today`.
pub fn header_from_fields(record: &Vec<String>, today: RIPDate) -> (r: Option<RIPHeader>)
    ensures
        r is Some <==> record@.len() == 7,
        r matches Some(h) ==> header_read_from(record@, today, h),
{
    if 7 != record.len() {
        return None;
    }
    Some(
        RIPHeader {
            version: parse_version(record),
            registry: parse_registry(record, 1),
            serial: parse_string(record, 2),
            records: parse_u32(record, 3),
            start_date: parse_record_date(record, 4, today),
            end_date: parse_record_date(record, 5, today),
        },
    )
}

/// Whether a line is a summary line: its last field reads `summary` in any case.
pub open spec fn is_summary_line(fields: Seq<String>) -> bool {
    fields.len() >= 1 && lowercase(fields.last()@) == "summary"@
}

/// What holds of a summary read from the fields of a line.
pub open spec fn summary_read_from(fields: Seq<String>, v: RIPSummary) -> bool {
    &&& v == (RIPSummary {
        registry: field_registry(fields, 0),
        typ: field_kind(fields, 2),
        count: field_number(fields, 4, u32::MAX as nat) as u32,
    })
    &&& v.registry != RIPRegistry::ARIN && v.registry != RIPRegistry::LACNIC
}

/// Whether a lowercased last field marks a summary line: it reads `summary`.
pub fn is_summary_mark(lower: &str) -> (r: bool)
    ensures
        r == (lower@ == "summary"@),
{
    str_equals(lower, "summary")
}

/// The summary that a line gives (`registry|*|type|*|count|summary`);
/// `None` when its last field is not `summary`.
pub fn summary_from_fields(record: &Vec<String>) -> (r: Option<RIPSummary>)
    requires
        record@.len() >= 1,
    ensures
        r is Some <==> is_summary_line(record@),
        r matches Some(v) ==> summary_read_from(record@, v),
{
    let last = record[record.len() - 1].as_str();
    let lower = to_lowercase(last);
    if !is_summary_mark(lower.as_str()) {
        return None;
    }
    Some(
        RIPSummary {
            registry: parse_registry(record, 0),
            typ: parse_summary_typ(record, 2),
            count: parse_u32(record, 4),
        },
    )
}

/// What holds of a record read from the fields of a line.
pub open spec fn record_read_from(fields: Seq<String>, today: RIPDate, v: RIPRecord) -> bool {
    &&& v.registry == field_registry(fields, 0)
    &&& v.registry != RIPRegistry::ARIN && v.registry != RIPRegistry::LACNIC
    &&& v.cc@ == field_text(fields, 1)
    &&& v.typ == field_kind(fields, 2)
    &&& v.start@ == field_text(fields, 3)
    &&& v.value == field_number(fields, 4, u32::MAX as nat)
    &&& v.date == date_of_field(field(fields, 5), today)
    &&& v.status@ == field_text(fields, 6)
    &&& match v.exts {
        Some(e) => fields.len() > 7 && e@.len() == fields.len() - 7 && forall|i: int|
            0 <= i < e@.len() ==> (#[trigger] e@[i])@ == fields[i + 7]@,
        None => fields.len() <= 7,
    }
}

/// The record that a line of at least six fields gives
/// (`registry|cc|type|start|value|date|status|extensions...`); `None` for a
/// shorter line. A date that cannot be read is `today`.
pub fn record_from_fields(record: &Vec<String>, today: RIPDate) -> (r: Option<RIPRecord>)
    ensures
        r is Some <==> record@.len() >= 6,
        r matches Some(v) ==> record_read_from(record@, today, v),
{
    if 6 > record.len() {
        return None;
    }
    let mut exts: Option<Vec<String>> = None;
    if 7 < record.len() {
        let mut tmp_exts: Vec<String> = Vec::new();
        let mut iter_inx: usize = 7;
        while iter_inx < record.len()
            invariant
                7 <= iter_inx <= record@.len(),
                tmp_exts@.len() == iter_inx - 7,
                forall|i: int|
                    0 <= i < tmp_exts@.len() ==> (#[trigger] tmp_exts@[i])@ == record@[i + 7]@,
            decreases record@.len() - iter_inx,
        {
            tmp_exts.push(parse_string(record, iter_inx));
            iter_inx = iter_inx + 1;
        }
        exts = Some(tmp_exts);
    }
    Some(
        RIPRecord {
            registry: parse_registry(record, 0),
            cc: parse_string(record, 1),
            typ: parse_summary_typ(record, 2),
            start: parse_string(record, 3),
            value: parse_u32(record, 4),
            date: parse_record_date(record, 5, today),
            status: parse_string(record, 6),
            exts,
        },
    )
}

// ---------------------------------------------------------------------------
// Laws of lines
// ---------------------------------------------------------------------------

/// A field that holds the decimal text of a number no larger than `max`
/// reads as that number.
pub proof fn field_number_reads_decimal(fields: Seq<String>, i: int, n: nat, max: nat)
    requires
        0 <= i < fields.len(),
        fields[i]@ == decimal(n),
        n <= max,
    ensures
        field_number(fields, i, max) == n,
{
    decimal_reads_back(n, max);
}

/// A header takes its serial from field 2 as it stands, its record count
/// from field 3 and its version from field 0, each the number that the
/// field writes in decimal.
pub proof fn header_fields_read_back(fields: Seq<String>, today: RIPDate, h: RIPHeader)
    requires
        fields.len() == 7,
        header_read_from(fields, today, h),
    ensures
        h.serial@ == fields[2]@,
        forall|n: nat| #[trigger] decimal(n) == fields[3]@ && n <= u32::MAX ==> h.records == n,
        forall|n: nat| #[trigger] decimal(n) == fields[0]@ && n <= 255 ==> h.version == n,
{
    assert forall|n: nat| #[trigger] decimal(n) == fields[3]@ && n <= u32::MAX implies h.records
        == n by {
        field_number_reads_decimal(fields, 3, n, u32::MAX as nat);
    }
    assert forall|n: nat| #[trigger] decimal(n) == fields[0]@ && n <= 255 implies h.version == n by {
        field_number_reads_decimal(fields, 0, n, 255);
    }
}

/// A summary takes its count from field 4, the number that the field
/// writes in decimal.
pub proof fn summary_count_reads_back(fields: Seq<String>, v: RIPSummary)
    requires
        fields.len() > 4,
        summary_read_from(fields, v),
    ensures
        forall|n: nat| #[trigger] decimal(n) == fields[4]@ && n <= u32::MAX ==> v.count == n,
{
    assert forall|n: nat| #[trigger] decimal(n) == fields[4]@ && n <= u32::MAX implies v.count
        == n by {
        field_number_reads_decimal(fields, 4, n, u32::MAX as nat);
    }
}

/// A record takes country code, start and status from fields 1, 3 and 6 as
/// they stand, its value from field 4 (the number that the field writes in
/// decimal), and its extensions from the fields after the seventh.
pub proof fn record_fields_read_back(fields: Seq<String>, today: RIPDate, v: RIPRecord)
    requires
        fields.len() >= 7,
        record_read_from(fields, today, v),
    ensures
        v.cc@ == fields[1]@,
        v.start@ == fields[3]@,
        v.status@ == fields[6]@,
        forall|n: nat| #[trigger] decimal(n) == fields[4]@ && n <= u32::MAX ==> v.value == n,
        fields.len() == 7 ==> v.exts is None,
        fields.len() > 7 ==> (v.exts matches Some(e) && e@.len() == fields.len() - 7 && forall|
            i: int,
        | 7 <= i < fields.len() ==> (#[trigger] e@[i - 7])@ == fields[i]@),
{
    assert forall|n: nat| #[trigger] decimal(n) == fields[4]@ && n <= u32::MAX implies v.value
        == n by {
        field_number_reads_decimal(fields, 4, n, u32::MAX as nat);
    }
    if fields.len() > 7 {
        let e = v.exts.unwrap();
        assert forall|i: int| 7 <= i < fields.len() implies (#[trigger] e@[i - 7])@ == fields[i]@ by {
            assert(e@[(i - 7)]@ == fields[(i - 7) + 7]@);
        }
    }
}

/// The registry, kind and dates of a line come from their fields: the
/// registry named by the lowercased registry field, the kind named by the
/// lowercased kind field, and the day that chrono reads from a date field
/// with the time `000000` appended (`today` when it reads none).
pub proof fn line_names_and_dates_from_fields(
    fields: Seq<String>,
    today: RIPDate,
    h: RIPHeader,
    s: RIPSummary,
    v: RIPRecord,
)
    requires
        fields.len() >= 7,
    ensures
        header_read_from(fields, today, h) ==> {
            &&& h.registry == registry_named(lowercase(fields[1]@))
            &&& h.start_date == match utc_datetime_day(fields[4]@ + "000000"@, "%Y%m%d%H%M%S"@) {
                Some(d) => RIPDate { year: d.0, month: d.1, day: d.2 },
                None => today,
            }
            &&& h.end_date == match utc_datetime_day(fields[5]@ + "000000"@, "%Y%m%d%H%M%S"@) {
                Some(d) => RIPDate { year: d.0, month: d.1, day: d.2 },
                None => today,
            }
        },
        summary_read_from(fields, s) ==> {
            &&& s.registry == registry_named(lowercase(fields[0]@))
            &&& s.typ == kind_named(lowercase(fields[2]@))
        },
        record_read_from(fields, today, v) ==> {
            &&& v.registry == registry_named(lowercase(fields[0]@))
            &&& v.typ == kind_named(lowercase(fields[2]@))
            &&& v.date == match utc_datetime_day(fields[5]@ + "000000"@, "%Y%m%d%H%M%S"@) {
                Some(d) => RIPDate { year: d.0, month: d.1, day: d.2 },
                None => today,
            }
        },
{
}

} // verus!
