use chrono::{Datelike, Utc};
use ripquerier::data::{RIPDate, RIPRecord, RIPRegistry, RIPSummary, RIPSummaryTyp};
use ripquerier::reader::{
    header_from_fields, is_summary_mark, kind_from_lowercase, parse_date, registry_from_lowercase, parse_record_date, parse_registry, parse_string,
    parse_summary_typ, parse_u32, parse_version, record_from_fields, summary_from_fields,
};

fn fields(line: &str) -> Vec<String> {
    line.split('|').map(|f| f.trim().to_string()).collect()
}

#[allow(deprecated)]
fn today() -> RIPDate {
    let d = Utc::today();
    RIPDate { year: d.year(), month: d.month(), day: d.day() }
}

#[test]
fn riprecord_init() {
    let record = RIPRecord {
        registry: RIPRegistry::AFRINIC,
        cc: "CN".to_string(),
        typ: RIPSummaryTyp::IPV4,
        start: "10.119.128.33".to_string(),
        value: 1024,
        date: today(),
        status: "allocated".to_string(),
        exts: None,
    };

    assert_eq!(RIPRegistry::AFRINIC, record.registry);
    assert_eq!("CN", record.cc);
    assert_eq!(RIPSummaryTyp::IPV4, record.typ);
    assert_eq!("10.119.128.33", record.start);
    assert_eq!(1024, record.value);
    assert_eq!("allocated", record.status);
    assert!(None == record.exts);
}

#[test]
fn header_line_of_apnic_file() {
    let header = header_from_fields(&fields("2|apnic|20180717|56311|19830613|20180716|+1000"), today())
        .expect("a line of seven fields is a header");
    assert_eq!(header.version, 2);
    assert_eq!(header.registry, RIPRegistry::APNIC);
    assert_eq!(header.serial, "20180717");
    assert_eq!(header.records, 56311);
    assert_eq!(header.start_date, RIPDate { year: 1983, month: 6, day: 13 });
    assert_eq!(header.end_date, RIPDate { year: 2018, month: 7, day: 16 });
}

#[test]
fn header_needs_seven_fields() {
    assert!(header_from_fields(&fields("apnic|*|asn|*|8533|summary"), today()).is_none());
    assert!(header_from_fields(&fields("apnic|JP|asn|173|1|20020801|allocated|x"), today()).is_none());
}

#[test]
fn summary_lines_of_apnic_file() {
    let expected_count = vec![8533, 39773, 8005];
    let expected_typ = vec![RIPSummaryTyp::ASN, RIPSummaryTyp::IPV4, RIPSummaryTyp::IPV6];
    let lines = ["apnic|*|asn|*|8533|summary", "apnic|*|ipv4|*|39773|summary", "apnic|*|ipv6|*|8005|Summary"];
    for (inx, line) in lines.iter().enumerate() {
        let s = summary_from_fields(&fields(line)).expect("a summary line");
        assert_eq!(
            s,
            RIPSummary { registry: RIPRegistry::APNIC, typ: expected_typ[inx], count: expected_count[inx] }
        );
    }
    assert_eq!(None, summary_from_fields(&fields("apnic|JP|asn|173|1|20020801|allocated")));
}

#[test]
fn record_lines_of_apnic_file() {
    let r = record_from_fields(&fields("apnic|JP|asn|173|1|20020801|allocated"), today()).expect("a record");
    assert_eq!(r.registry, RIPRegistry::APNIC);
    assert_eq!(r.cc, "JP");
    assert_eq!(r.typ, RIPSummaryTyp::ASN);
    assert_eq!(r.start, "173");
    assert_eq!(r.value, 1);
    assert_eq!(r.date, RIPDate { year: 2002, month: 8, day: 1 });
    assert_eq!(r.status, "allocated");
    assert_eq!(r.exts, None);

    let r = record_from_fields(&fields("apnic|AU|ipv4|1.0.0.0|256|20110811|assigned"), today()).expect("a record");
    assert_eq!(r.cc, "AU");
    assert_eq!(r.typ, RIPSummaryTyp::IPV4);
    assert_eq!(r.start, "1.0.0.0");
    assert_eq!(r.value, 256);
    assert_eq!(r.date, RIPDate { year: 2011, month: 8, day: 11 });
    assert_eq!(r.status, "assigned");
}

#[test]
fn record_extensions_and_short_lines() {
    let r = record_from_fields(&fields("arin|US|ipv4|8.8.8.0|256|19921201|allocated|abc-123|x"), today())
        .expect("a record");
    assert_eq!(r.exts, Some(vec!["abc-123".to_string(), "x".to_string()]));
    assert_eq!(r.registry, RIPRegistry::RIPENCC);
    let r = record_from_fields(&fields("lacnic|BR|ipv6|2001:db8::|32|20100101"), today()).expect("six fields");
    assert_eq!(r.status, "");
    assert_eq!(r.exts, None);
    assert!(record_from_fields(&fields("apnic|*|asn|*|8533"), today()).is_none());
}

#[test]
fn field_readers() {
    let f = fields("2|APNIC|IPv6|+42|x|4294967296");
    assert_eq!(2, parse_version(&f));
    assert_eq!(RIPRegistry::APNIC, parse_registry(&f, 1));
    assert_eq!(RIPRegistry::RIPENCC, parse_registry(&f, 9));
    assert_eq!(RIPSummaryTyp::IPV6, parse_summary_typ(&f, 2));
    assert_eq!(RIPSummaryTyp::ASN, parse_summary_typ(&f, 1));
    assert_eq!(RIPSummaryTyp::ASN, parse_summary_typ(&f, 9));
    assert_eq!(42, parse_u32(&f, 3));
    assert_eq!(0, parse_u32(&f, 4));
    assert_eq!(0, parse_u32(&f, 5));
    assert_eq!(0, parse_u32(&f, 9));
    assert_eq!("x", parse_string(&f, 4));
    assert_eq!("", parse_string(&f, 9));
    assert_eq!(0, parse_version(&fields("300|apnic")));
    assert_eq!(0, parse_version(&fields("")));
}

#[test]
fn registry_names() {
    let f = fields("afrinic|AfriNIC|iana|ARIN|arin|LACNIC|lacnic|ripencc|APNIC");
    assert_eq!(RIPRegistry::AFRINIC, parse_registry(&f, 0));
    assert_eq!(RIPRegistry::AFRINIC, parse_registry(&f, 1));
    assert_eq!(RIPRegistry::IANA, parse_registry(&f, 2));
    // names are lowercased before they are compared, so the upper-case
    // patterns never match
    assert_eq!(RIPRegistry::RIPENCC, parse_registry(&f, 3));
    assert_eq!(RIPRegistry::RIPENCC, parse_registry(&f, 4));
    assert_eq!(RIPRegistry::RIPENCC, parse_registry(&f, 5));
    assert_eq!(RIPRegistry::RIPENCC, parse_registry(&f, 6));
    assert_eq!(RIPRegistry::RIPENCC, parse_registry(&f, 7));
    assert_eq!(RIPRegistry::APNIC, parse_registry(&f, 8));
}

#[test]
fn dates() {
    let t = RIPDate { year: 2024, month: 2, day: 29 };
    assert_eq!(RIPDate { year: 2018, month: 7, day: 16 }, parse_date("20180716", t));
    assert_eq!(RIPDate { year: 1983, month: 6, day: 13 }, parse_date("19830613", t));
    assert_eq!(t, parse_date("no date", t));
    assert_eq!(t, parse_date("", t));
    assert_eq!(t, parse_date("00000000", t));
    assert_eq!(t, parse_date("20180231", t));
    assert_eq!(t, parse_record_date(&fields("a|b"), 5, t));
    assert_eq!(RIPDate { year: 2002, month: 8, day: 1 }, parse_record_date(&fields("20020801"), 0, t));
    assert_eq!(t, parse_record_date(&fields("summary"), 0, t));
}

#[test]
fn unreadable_dates_in_lines_are_today() {
    let t = today();
    let h = header_from_fields(&fields("2|apnic|1|2|bad|20180716|+1000"), t).unwrap();
    assert_eq!(t, h.start_date);
    let r = record_from_fields(&fields("apnic|JP|asn|173|1||allocated"), t).unwrap();
    assert_eq!(t, r.date);
}

#[test]
fn names_after_lowercasing() {
    assert_eq!(RIPRegistry::APNIC, registry_from_lowercase("apnic"));
    assert_eq!(RIPRegistry::AFRINIC, registry_from_lowercase("afrinic"));
    assert_eq!(RIPRegistry::IANA, registry_from_lowercase("iana"));
    assert_eq!(RIPRegistry::ARIN, registry_from_lowercase("ARIN"));
    assert_eq!(RIPRegistry::LACNIC, registry_from_lowercase("LACNIC"));
    assert_eq!(RIPRegistry::RIPENCC, registry_from_lowercase("arin"));
    assert_eq!(RIPRegistry::RIPENCC, registry_from_lowercase("APNIC"));
    assert_eq!(RIPSummaryTyp::IPV4, kind_from_lowercase("ipv4"));
    assert_eq!(RIPSummaryTyp::IPV6, kind_from_lowercase("ipv6"));
    assert_eq!(RIPSummaryTyp::ASN, kind_from_lowercase("IPV4"));
    assert_eq!(RIPSummaryTyp::ASN, kind_from_lowercase("asn"));
    assert!(is_summary_mark("summary"));
    assert!(!is_summary_mark("Summary"));
    assert!(!is_summary_mark("allocated"));
}

#[test]
fn root_types_are_the_data_types() {
    let d: ripquerier::RIPDate = RIPDate { year: 2020, month: 1, day: 2 };
    let r = record_from_fields(&fields("ripencc|DE|ipv4|2.0.0.0|1024|x|allocated"), d).unwrap();
    let same: &ripquerier::RIPRecord = &r;
    assert_eq!(same.date, d);
    assert_eq!(same.registry, ripquerier::RIPRegistry::RIPENCC);
}
