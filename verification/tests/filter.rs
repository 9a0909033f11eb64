use ripquerier::data::{RIPDate, RIPRecord, RIPRegistry, RIPSummaryTyp};
use ripquerier::opt::{new_filter_from_vec, FilterCondition, Matcher};
use ripquerier::processor::{match_conditions, or_condition, record_output_lines};

fn strings(items: &[&str]) -> Vec<String> {
    items.iter().map(|s| s.to_string()).collect()
}

fn record(cc: &str, typ: RIPSummaryTyp, start: &str, value: u32, status: &str) -> RIPRecord {
    RIPRecord {
        registry: RIPRegistry::APNIC,
        cc: cc.to_string(),
        typ,
        start: start.to_string(),
        value,
        date: RIPDate { year: 2011, month: 8, day: 11 },
        status: status.to_string(),
        exts: None,
    }
}

#[test]
fn new_filter() {
    let conditions = new_filter_from_vec(&vec![
        String::from("cc"),
        String::from("CN"),
        String::from("registry"),
        String::from("APNIC"),
    ]);

    assert!(conditions[0].match_field("cc", "CN"));
    assert!(conditions[1].match_field("registry", "APNIC"));
}

#[test]
fn filter_pairs_and_mismatches() {
    let conditions = new_filter_from_vec(&strings(&["cc", "CN", "status", "allocated", "typ"]));
    assert_eq!(2, conditions.len());
    assert_eq!("status", conditions[1].field_name());
    assert_eq!("allocated", conditions[1].field_value());
    assert!(!conditions[0].match_field("cc", "cn"));
    assert!(!conditions[0].match_field("status", "CN"));
    let c = FilterCondition::new("typ".to_string(), "ipv4".to_string());
    assert!(c.match_field("typ", "ipv4"));
}

#[test]
fn or_condition_fills_and_ors() {
    let cond = FilterCondition::new("cc".to_string(), "CN".to_string());
    let mut flags: Vec<Option<bool>> = vec![None; 3];
    assert!(!or_condition(&mut flags, 0, "JP", &cond));
    assert_eq!(vec![Some(false), None, None], flags);
    assert!(or_condition(&mut flags, 0, "CN", &cond));
    assert_eq!(vec![Some(true), None, None], flags);
    assert!(or_condition(&mut flags, 0, "JP", &cond));
    assert_eq!(vec![Some(true), None, None], flags);
    assert!(or_condition(&mut flags, 2, "CN", &cond));
    assert_eq!(vec![Some(true), None, Some(true)], flags);
}

#[test]
fn conditions_and_across_fields_or_within() {
    let r = record("JP", RIPSummaryTyp::IPV4, "1.0.0.0", 256, "allocated");
    let none: Vec<FilterCondition> = vec![];
    assert!(match_conditions(&none, &r));
    let c = new_filter_from_vec(&strings(&["cc", "CN", "cc", "JP"]));
    assert!(match_conditions(&c, &r));
    let c = new_filter_from_vec(&strings(&["cc", "CN", "cc", "KR"]));
    assert!(!match_conditions(&c, &r));
    let c = new_filter_from_vec(&strings(&["cc", "JP", "status", "allocated", "typ", "ipv4", "typ", "ipv6"]));
    assert!(match_conditions(&c, &r));
    let c = new_filter_from_vec(&strings(&["cc", "JP", "status", "assigned"]));
    assert!(!match_conditions(&c, &r));
    let c = new_filter_from_vec(&strings(&["typ", "asn"]));
    assert!(!match_conditions(&c, &r));
    let asn = record("JP", RIPSummaryTyp::ASN, "173", 1, "allocated");
    assert!(match_conditions(&c, &asn));
}

#[test]
fn output_lines_for_each_kind() {
    let v4 = record("JP", RIPSummaryTyp::IPV4, "192.168.1.0", 312, "allocated");
    assert_eq!(
        Some(strings(&["192.168.1.0/24", "192.168.2.0/27", "192.168.2.32/28", "192.168.2.48/29"])),
        record_output_lines(&v4)
    );
    let v6 = record("JP", RIPSummaryTyp::IPV6, "2001:db8::", 32, "allocated");
    assert_eq!(Some(strings(&["2001:db8::/32"])), record_output_lines(&v6));
    let asn_range = record("JP", RIPSummaryTyp::ASN, "64512", 10, "allocated");
    assert_eq!(Some(strings(&["64512"])), record_output_lines(&asn_range));
    let asn_one = record("JP", RIPSummaryTyp::ASN, "173", 1, "allocated");
    assert_eq!(Some(strings(&["173-174"])), record_output_lines(&asn_one));
    let asn_bad = record("JP", RIPSummaryTyp::ASN, "AS173", 1, "allocated");
    assert_eq!(None, record_output_lines(&asn_bad));
}
