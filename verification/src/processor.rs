//! Selecting records by conditions, and the lines that a record is printed as.
use vstd::prelude::*;
use crate::data::{RIPRecord, RIPSummaryTyp};
use crate::decimal::{decimal, parse_decimal, parse_unsigned, push_decimal};
use crate::ipv4::{block_text, ipv4_count_2_mask_represents, ipv4_value, range_blocks};
use crate::opt::FilterCondition;
use crate::ipv4_laws::decimal_reads_back;
use crate::reader::kind_named;
use crate::text::str_equals;

verus! {

/// The group that a condition on field `name` belongs to: `0` for the
/// country code (`cc`), `1` for the kind of resource (`typ`), `2` for the
/// status (any other name).
pub open spec fn condition_group(name: Seq<char>) -> int {
    if name == "cc"@ {
        0
    } else if name == "typ"@ {
        1
    } else {
        2
    }
}

/// The lowercase name of a kind of resource, as conditions write it.
pub open spec fn kind_text(t: RIPSummaryTyp) -> Seq<char> {
    match t {
        RIPSummaryTyp::IPV4 => "ipv4"@,
        RIPSummaryTyp::IPV6 => "ipv6"@,
        RIPSummaryTyp::ASN => "asn"@,
    }
}

/// The value of a record that the conditions of group `g` are compared with.
pub open spec fn group_value(record: RIPRecord, g: int) -> Seq<char> {
    if g == 0 {
        record.cc@
    } else if g == 1 {
        kind_text(record.typ)
    } else {
        record.status@
    }
}

/// Whether some condition among the first `n` is in group `g`.
pub open spec fn group_present(conds: Seq<FilterCondition>, n: int, g: int) -> bool {
    exists|i: int| 0 <= i < n && condition_group((#[trigger] conds[i])@.0) == g
}

/// Whether some condition among the first `n` is in group `g` and is met.
pub open spec fn group_met(conds: Seq<FilterCondition>, n: int, g: int, record: RIPRecord) -> bool {
    exists|i: int|
        0 <= i < n && condition_group((#[trigger] conds[i])@.0) == g && conds[i]@.1 == group_value(
            record,
            g,
        )
}

/// A record meets a list of conditions when, in each group that has a
/// condition, one of the group's conditions is met: conditions on different
/// fields all hold (and), conditions on the same field are alternatives (or).
pub open spec fn conditions_met(conds: Seq<FilterCondition>, record: RIPRecord) -> bool {
    forall|g: int|
        0 <= g < 3 ==> (group_present(conds, conds.len() as int, g) ==> group_met(
            conds,
            conds.len() as int,
            g,
            record,
        ))
}

/// No conditions select every record.
pub proof fn no_conditions_select_every_record(record: RIPRecord)
    ensures
        conditions_met(Seq::<FilterCondition>::empty(), record),
{
}

/// Conditions on the same field are alternatives: a record that meets a list
/// of conditions still meets it when a condition is added on a field that
/// the list already constrains.
pub proof fn added_alternative_keeps_record(
    conds: Seq<FilterCondition>,
    extra: FilterCondition,
    record: RIPRecord,
)
    requires
        conditions_met(conds, record),
        group_present(conds, conds.len() as int, condition_group(extra@.0)),
    ensures
        conditions_met(conds.push(extra), record),
{
    let c2 = conds.push(extra);
    assert forall|g: int|
        0 <= g < 3 && group_present(c2, c2.len() as int, g) implies group_met(
        c2,
        c2.len() as int,
        g,
        record,
    ) by {
        let k = choose|k: int|
            0 <= k < c2.len() && condition_group((#[trigger] c2[k])@.0) == g;
        if k < conds.len() {
            assert(c2[k] == conds[k]);
            assert(group_present(conds, conds.len() as int, g));
        } else {
            assert(c2[k] == extra);
        }
        assert(group_met(conds, conds.len() as int, g, record));
        let j = choose|j: int|
            0 <= j < conds.len() && condition_group((#[trigger] conds[j])@.0) == g && conds[j]@.1
                == group_value(record, g);
        assert(c2[j] == conds[j]);
    }
}

/// Conditions on different fields must all hold: a condition added on a
/// field that the list does not constrain yet only narrows the selection.
pub proof fn added_condition_narrows(
    conds: Seq<FilterCondition>,
    extra: FilterCondition,
    record: RIPRecord,
)
    requires
        !group_present(conds, conds.len() as int, condition_group(extra@.0)),
        conditions_met(conds.push(extra), record),
    ensures
        conditions_met(conds, record),
{
    let c2 = conds.push(extra);
    assert forall|g: int|
        0 <= g < 3 && group_present(conds, conds.len() as int, g) implies group_met(conds, conds.len() as int, g, record) by {
        let k = choose|k: int| 0 <= k < conds.len() && condition_group((#[trigger] conds[k])@.0) == g;
        assert(c2[k] == conds[k]);
        assert(group_present(c2, c2.len() as int, g));
        let j = choose|j: int|
            0 <= j < c2.len() && condition_group((#[trigger] c2[j])@.0) == g && c2[j]@.1
                == group_value(record, g);
        assert(j != conds.len());
        assert(c2[j] == conds[j]);
    }
}

/// Folds the outcome of `condition` on `actual_value` into slot `inx`: an
/// empty slot takes the outcome, a filled one is or-ed with it. Returns the
/// slot's new value.
pub fn or_condition(
    dest_flag_vec: &mut Vec<Option<bool>>,
    inx: usize,
    actual_value: &str,
    condition: &FilterCondition,
) -> (r: bool)
    requires
        inx < old(dest_flag_vec)@.len(),
    ensures
        ({
            let m = condition@.1 == actual_value@;
            let v = match old(dest_flag_vec)@[inx as int] {
                Some(f) => f || m,
                None => m,
            };
            &&& r == v
            &&& final(dest_flag_vec)@ == old(dest_flag_vec)@.update(inx as int, Some(v))
        }),
{
    let match_flag = str_equals(condition.field_value(), actual_value);
    if let Some(flag) = dest_flag_vec[inx] {
        dest_flag_vec.set(inx, Some(flag || match_flag));
        flag || match_flag
    } else {
        dest_flag_vec.set(inx, Some(match_flag));
        match_flag
    }
}

/// Whether `record` meets the conditions: in each of the groups country
/// code, kind of resource and status that has a condition, one of the
/// group's conditions requires the record's value.
pub fn match_conditions(conditions: &Vec<FilterCondition>, record: &RIPRecord) -> (r: bool)
    ensures
        r == conditions_met(conditions@, *record),
{
    proof {
        reveal_strlit("ipv4");
        reveal_strlit("ipv6");
        reveal_strlit("asn");
    }
    let mut flag_vec: Vec<Option<bool>> = vec![None, None, None];
    let n = conditions.len();
    let mut i: usize = 0;
    while i < n
        invariant
            n == conditions@.len(),
            i <= n,
            flag_vec@.len() == 3,
            forall|g: int|
                0 <= g < 3 ==> match #[trigger] flag_vec@[g] {
                    None => !group_present(conditions@, i as int, g),
                    Some(b) => group_present(conditions@, i as int, g) && b == group_met(
                        conditions@,
                        i as int,
                        g,
                        *record,
                    ),
                },
        decreases n - i,
    {
        let tmp_condition = &conditions[i];
        let name = tmp_condition.field_name();
        let ghost before = flag_vec@;
        let ghost g_i: int;
        if str_equals(name, "cc") {
            proof {
                g_i = 0;
            }
            or_condition(&mut flag_vec, 0, record.cc.as_str(), tmp_condition);
        } else if str_equals(name, "typ") {
            proof {
                g_i = 1;
            }
            let tmp_type_str = match record.typ {
                RIPSummaryTyp::IPV4 => "ipv4",
                RIPSummaryTyp::IPV6 => "ipv6",
                RIPSummaryTyp::ASN => "asn",
            };
            assert(tmp_type_str@ == kind_text(record.typ));
            or_condition(&mut flag_vec, 1, tmp_type_str, tmp_condition);
        } else {
            proof {
                g_i = 2;
            }
            or_condition(&mut flag_vec, 2, record.status.as_str(), tmp_condition);
        }
        proof {
            assert(condition_group(conditions@[i as int]@.0) == g_i);
            assert forall|g: int| 0 <= g < 3 implies match #[trigger] flag_vec@[g] {
                None => !group_present(conditions@, i + 1, g),
                Some(b) => group_present(conditions@, i + 1, g) && b == group_met(
                    conditions@,
                    i + 1,
                    g,
                    *record,
                ),
            } by {
                if g == g_i {
                    assert(group_present(conditions@, i + 1, g));
                    if group_met(conditions@, i + 1, g, *record) {
                        let k = choose|k: int|
                            0 <= k < i + 1 && condition_group((#[trigger] conditions@[k])@.0) == g
                                && conditions@[k]@.1 == group_value(*record, g);
                        if k < i {
                            assert(group_met(conditions@, i as int, g, *record));
                        }
                    }
                    if group_met(conditions@, i as int, g, *record) {
                        let k = choose|k: int|
                            0 <= k < i && condition_group((#[trigger] conditions@[k])@.0) == g
                                && conditions@[k]@.1 == group_value(*record, g);
                        assert(0 <= k < i + 1);
                    }
                    if group_present(conditions@, i as int, g) {
                        let k = choose|k: int|
                            0 <= k < i && condition_group((#[trigger] conditions@[k])@.0) == g;
                        assert(0 <= k < i + 1);
                    }
                } else {
                    assert(flag_vec@[g] == before[g]);
                    if group_present(conditions@, i + 1, g) {
                        let k = choose|k: int|
                            0 <= k < i + 1 && condition_group((#[trigger] conditions@[k])@.0) == g;
                        assert(k != i);
                    }
                    if group_present(conditions@, i as int, g) {
                        let k = choose|k: int|
                            0 <= k < i && condition_group((#[trigger] conditions@[k])@.0) == g;
                        assert(0 <= k < i + 1);
                    }
                    if group_met(conditions@, i + 1, g, *record) {
                        let k = choose|k: int|
                            0 <= k < i + 1 && condition_group((#[trigger] conditions@[k])@.0) == g
                                && conditions@[k]@.1 == group_value(*record, g);
                        assert(k != i);
                    }
                    if group_met(conditions@, i as int, g, *record) {
                        let k = choose|k: int|
                            0 <= k < i && condition_group((#[trigger] conditions@[k])@.0) == g
                                && conditions@[k]@.1 == group_value(*record, g);
                        assert(0 <= k < i + 1);
                    }
                }
            }
        }
        i = i + 1;
    }
    let mut g: usize = 0;
    while g < 3
        invariant
            g <= 3,
            flag_vec@.len() == 3,
            n == conditions@.len(),
            forall|h: int|
                0 <= h < 3 ==> match #[trigger] flag_vec@[h] {
                    None => !group_present(conditions@, n as int, h),
                    Some(b) => group_present(conditions@, n as int, h) && b == group_met(
                        conditions@,
                        n as int,
                        h,
                        *record,
                    ),
                },
            forall|h: int|
                0 <= h < g ==> (group_present(conditions@, n as int, h) ==> group_met(
                    conditions@,
                    n as int,
                    h,
                    *record,
                )),
        decreases 3 - g,
    {
        if let Some(f) = flag_vec[g] {
            if !f {
                return false;
            }
        }
        g = g + 1;
    }
    true
}

/// The lines that a record is printed as: the CIDR blocks of an IPv4 range,
/// `start/value` for IPv6, and for AS numbers the start alone when `value`
/// is above one, else `start-(start + value)`; `None` when that start is no
/// number.
pub open spec fn record_lines(record: RIPRecord) -> Option<Seq<Seq<char>>> {
    match record.typ {
        RIPSummaryTyp::IPV4 => {
            let b = range_blocks(record.start@, record.value);
            Some(Seq::new(b.len(), |i: int| block_text(b[i].0, b[i].1)))
        },
        RIPSummaryTyp::IPV6 => Some(
            seq![record.start@ + "/"@ + decimal(record.value as nat)],
        ),
        RIPSummaryTyp::ASN => if 1 < record.value {
            Some(seq![record.start@])
        } else {
            match parse_unsigned(record.start@, u64::MAX as nat) {
                Some(n) => Some(seq![record.start@ + "-"@ + decimal((n + record.value) as nat)]),
                None => None,
            }
        },
    }
}

/// Computes the lines that `record` is printed as (`record_lines`).
pub fn record_output_lines(record: &RIPRecord) -> (r: Option<Vec<String>>)
    requires
        record.typ == RIPSummaryTyp::IPV4 ==> ipv4_value(record.start@) + record.value
            <= u32::MAX,
        record.typ == RIPSummaryTyp::ASN ==> parse_unsigned(record.start@, u64::MAX as nat)
            is Some ==> parse_unsigned(record.start@, u64::MAX as nat).unwrap() + record.value
            <= u64::MAX || 1 < record.value,
    ensures
        match (r, record_lines(*record)) {
            (Some(v), Some(t)) => v@.len() == t.len() && forall|i: int|
                0 <= i < t.len() ==> (#[trigger] v@[i])@ == t[i],
            (None, None) => true,
            _ => false,
        },
{
    match record.typ {
        RIPSummaryTyp::IPV4 => {
            let lines = ipv4_count_2_mask_represents(record.start.as_str(), record.value);
            Some(*lines)
        },
        RIPSummaryTyp::IPV6 => {
            let mut line = record.start.clone();
            line.append("/");
            push_decimal(&mut line, record.value as u64);
            Some(vec![line])
        },
        RIPSummaryTyp::ASN => {
            if 1 < record.value {
                Some(vec![record.start.clone()])
            } else {
                match parse_decimal(record.start.as_str(), u64::MAX) {
                    Some(start_num) => {
                        let mut line = record.start.clone();
                        line.append("-");
                        push_decimal(&mut line, start_num + record.value as u64);
                        Some(vec![line])
                    },
                    None => None,
                }
            }
        },
    }
}

// ---------------------------------------------------------------------------
// Laws of kinds and printed lines
// ---------------------------------------------------------------------------

/// The name that a `typ` condition is compared with is the name by which
/// lines give that kind: each kind's name reads back as the kind, so no two
/// kinds share a name.
pub proof fn kind_text_reads_back(t: RIPSummaryTyp, u: RIPSummaryTyp)
    ensures
        kind_named(kind_text(t)) == t,
        kind_text(t) == kind_text(u) ==> t == u,
{
    reveal_strlit("ipv4");
    reveal_strlit("ipv6");
    reveal_strlit("asn");
    assert("ipv4"@ != "ipv6"@ && "asn"@ != "ipv4"@ && "asn"@ != "ipv6"@) by {
        assert("ipv4"@[3] != "ipv6"@[3]);
        assert("asn"@.len() != "ipv4"@.len());
        assert("asn"@.len() != "ipv6"@.len());
    }
}

/// A lone condition on `cc` selects the records with that country code; on
/// `typ`, those whose kind has that name; on any other field, those with
/// that status.
pub proof fn lone_condition_selects(c: FilterCondition, record: RIPRecord)
    ensures
        c@.0 == "cc"@ ==> (conditions_met(seq![c], record) <==> record.cc@ == c@.1),
        c@.0 == "typ"@ ==> (conditions_met(seq![c], record) <==> kind_text(record.typ) == c@.1),
        c@.0 != "cc"@ && c@.0 != "typ"@ ==> (conditions_met(seq![c], record) <==> record.status@
            == c@.1),
{
    let cs = seq![c];
    let g0 = condition_group(c@.0);
    assert(cs[0] == c);
    assert(0 <= g0 < 3);
    assert(group_present(cs, 1, g0));
    assert forall|g: int| 0 <= g < 3 && g != g0 implies !group_present(cs, 1, g) by {
        if group_present(cs, 1, g) {
            let i = choose|i: int| 0 <= i < 1 && condition_group((#[trigger] cs[i])@.0) == g;
            assert(i == 0);
        }
    }
    assert(group_met(cs, 1, g0, record) <==> c@.1 == group_value(record, g0)) by {
        if group_met(cs, 1, g0, record) {
            let i = choose|i: int|
                0 <= i < 1 && condition_group((#[trigger] cs[i])@.0) == g0 && cs[i]@.1
                    == group_value(record, g0);
            assert(i == 0);
        }
    }
    assert(conditions_met(cs, record) <==> c@.1 == group_value(record, g0)) by {
        if c@.1 == group_value(record, g0) {
            assert forall|g: int|
                0 <= g < 3 && group_present(cs, cs.len() as int, g) implies group_met(
                cs,
                cs.len() as int,
                g,
                record,
            ) by {
                assert(g == g0);
            }
        }
        if conditions_met(cs, record) {
            assert(group_present(cs, cs.len() as int, g0));
        }
    }
    reveal_strlit("typ");
    reveal_strlit("cc");
    assert("typ"@ != "cc"@) by {
        assert("typ"@.len() != "cc"@.len());
    }
}

/// A lone condition `typ=ipv4`, `typ=ipv6` or `typ=asn` selects exactly the
/// records of that kind.
pub proof fn typ_condition_selects_its_kind(c: FilterCondition, record: RIPRecord)
    requires
        c@.0 == "typ"@,
    ensures
        c@.1 == "ipv4"@ ==> (conditions_met(seq![c], record) <==> record.typ
            == RIPSummaryTyp::IPV4),
        c@.1 == "ipv6"@ ==> (conditions_met(seq![c], record) <==> record.typ
            == RIPSummaryTyp::IPV6),
        c@.1 == "asn"@ ==> (conditions_met(seq![c], record) <==> record.typ
            == RIPSummaryTyp::ASN),
{
    reveal_strlit("typ");
    reveal_strlit("cc");
    reveal_strlit("ipv4");
    reveal_strlit("ipv6");
    reveal_strlit("asn");
    assert("typ"@ != "cc"@) by {
        assert("typ"@.len() != "cc"@.len());
    }
    assert("ipv4"@ != "ipv6"@ && "asn"@ != "ipv4"@ && "asn"@ != "ipv6"@) by {
        assert("ipv4"@[3] != "ipv6"@[3]);
        assert("asn"@.len() != "ipv4"@.len());
        assert("asn"@.len() != "ipv6"@.len());
    }
    let cs = seq![c];
    assert(condition_group(cs[0]@.0) == 1);
    assert(group_present(cs, 1, 1));
    assert forall|g: int| 0 <= g < 3 && g != 1 implies !group_present(cs, 1, g) by {
        if group_present(cs, 1, g) {
            let i = choose|i: int| 0 <= i < 1 && condition_group((#[trigger] cs[i])@.0) == g;
            assert(i == 0);
        }
    }
    assert(group_met(cs, 1, 1, record) ==> c@.1 == kind_text(record.typ)) by {
        if group_met(cs, 1, 1, record) {
            let i = choose|i: int|
                0 <= i < 1 && condition_group((#[trigger] cs[i])@.0) == 1 && cs[i]@.1
                    == group_value(record, 1);
            assert(i == 0);
        }
    }
    assert(conditions_met(cs, record) ==> c@.1 == kind_text(record.typ)) by {
        if conditions_met(cs, record) {
            assert(cs.len() == 1);
            assert(group_present(cs, cs.len() as int, 1));
        }
    }
    assert(c@.1 == kind_text(record.typ) ==> conditions_met(cs, record)) by {
        if c@.1 == kind_text(record.typ) {
            assert(group_met(cs, 1, 1, record));
            assert forall|g: int|
                0 <= g < 3 && group_present(cs, cs.len() as int, g) implies group_met(
                cs,
                cs.len() as int,
                g,
                record,
            ) by {
                assert(g == 1);
            }
        }
    }
}

/// An IPv6 record is printed as one line: its start text, `/`, and a
/// prefix length that reads back as the record's value.
pub proof fn ipv6_line_reads_back(record: RIPRecord)
    requires
        record.typ == RIPSummaryTyp::IPV6,
    ensures
        record_lines(record) matches Some(ls) && ls.len() == 1 && exists|tail: Seq<char>|
            ls[0] == record.start@ + seq!['/'] + tail && parse_unsigned(tail, u32::MAX as nat)
                == Some(record.value as nat),
{
    reveal_strlit("/");
    let tail = decimal(record.value as nat);
    decimal_reads_back(record.value as nat, u32::MAX as nat);
    let ls = record_lines(record).unwrap();
    assert(ls[0] == record.start@ + seq!['/'] + tail);
}

/// AS numbers are printed as one line: the start alone when the value is
/// above one; otherwise the start, `-`, and a number that reads back as the
/// start's number plus the value, or nothing when the start is no number.
pub proof fn asn_line_reads_back(record: RIPRecord)
    requires
        record.typ == RIPSummaryTyp::ASN,
    ensures
        1 < record.value ==> record_lines(record) == Some(seq![record.start@]),
        record.value <= 1 ==> match parse_unsigned(record.start@, u64::MAX as nat) {
            Some(n) => n + record.value <= u64::MAX ==> (record_lines(record) matches Some(ls)
                && ls.len() == 1 && exists|tail: Seq<char>|
                ls[0] == record.start@ + seq!['-'] + tail && parse_unsigned(
                    tail,
                    u64::MAX as nat,
                ) == Some((n + record.value) as nat)),
            None => record_lines(record) is None,
        },
{
    reveal_strlit("-");
    if record.value <= 1 {
        if let Some(n) = parse_unsigned(record.start@, u64::MAX as nat) {
            if n + record.value <= u64::MAX {
                let tail = decimal((n + record.value) as nat);
                decimal_reads_back((n + record.value) as nat, u64::MAX as nat);
                let ls = record_lines(record).unwrap();
                assert(ls[0] == record.start@ + seq!['-'] + tail);
            }
        }
    }
}

} // verus!
