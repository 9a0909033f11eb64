use ripquerier::ipv4::{find_next_one_pos, ipv4_2_u32, ipv4_count_2_mask_represents, u32_2_ipv4_str};

#[test]
fn ipv4_conversion() {
    let count_is_power_2 = ipv4_count_2_mask_represents("192.168.1.0", 256);
    assert_eq!(1, count_is_power_2.len());
    assert_eq!("192.168.1.0/24", count_is_power_2[0]);

    let count_is_power_2_more = ipv4_count_2_mask_represents("192.168.1.0", 312);
    assert_eq!(4, count_is_power_2_more.len());
    assert_eq!("192.168.1.0/24", count_is_power_2_more[0]);
    assert_eq!("192.168.2.0/27", count_is_power_2_more[1]);
    assert_eq!("192.168.2.32/28", count_is_power_2_more[2]);
    assert_eq!("192.168.2.48/29", count_is_power_2_more[3]);

    let count_is_power_2_not_cidr = ipv4_count_2_mask_represents("192.168.1.0", 3);
    assert_eq!(2, count_is_power_2_not_cidr.len());
    assert_eq!("192.168.1.0/31", count_is_power_2_not_cidr[0]);
    assert_eq!("192.168.1.2", count_is_power_2_not_cidr[1]);
}

#[test]
fn ipv4_convertor() {
    let result = u32_2_ipv4_str(ipv4_2_u32("192.168.1.0"));
    assert_eq!(&result, "192.168.1.0")
}

#[test]
fn find_next_one() {
    assert_eq!(Some(2u8), find_next_one_pos(0x5, 31));
    assert_eq!(Some(0u8), find_next_one_pos(0x5, 1));
    assert_eq!(Some(0u8), find_next_one_pos(0x1, 31));
    assert_eq!(None, find_next_one_pos(0x0, 31));
    assert_eq!(None, find_next_one_pos(256, 1));
}

#[test]
fn find_next_one_at_the_top_bit() {
    assert_eq!(Some(31u8), find_next_one_pos(0x8000_0000, 31));
    assert_eq!(None, find_next_one_pos(0x8000_0000, 30));
    assert_eq!(Some(0u8), find_next_one_pos(0xffff_ffff, 0));
}

#[test]
fn ipv4_text_to_number() {
    assert_eq!(3232235776, ipv4_2_u32("192.168.1.0"));
    assert_eq!(0, ipv4_2_u32("0.0.0.0"));
    assert_eq!(0xffff_ffff, ipv4_2_u32("255.255.255.255"));
    assert_eq!(0x0102_0304, ipv4_2_u32("1.2.3.4"));
}

#[test]
fn ipv4_text_rejected_counts_as_zero() {
    assert_eq!(0, ipv4_2_u32("01.2.3.4"));
    assert_eq!(0, ipv4_2_u32("1.2.3"));
    assert_eq!(0, ipv4_2_u32("1.2.3.4.5"));
    assert_eq!(0, ipv4_2_u32("256.1.1.1"));
    assert_eq!(0, ipv4_2_u32("1..3.4"));
    assert_eq!(0, ipv4_2_u32("1.2.3.4 "));
    assert_eq!(0, ipv4_2_u32("a.b.c.d"));
    assert_eq!(0, ipv4_2_u32(""));
    assert_eq!(0, ipv4_2_u32("1000.1.1.1"));
    assert_eq!(0, ipv4_2_u32("2001:db8::"));
}

#[test]
fn ipv4_number_to_text() {
    assert_eq!("0.0.0.0", u32_2_ipv4_str(0));
    assert_eq!("255.255.255.255", u32_2_ipv4_str(0xffff_ffff));
    assert_eq!("10.0.200.7", u32_2_ipv4_str(0x0a00_c807));
}

#[test]
fn ipv4_text_roundtrips() {
    for x in [0u32, 1, 255, 256, 65535, 0x0a00_c807, 0xc0a8_0100, 0xffff_ffff] {
        assert_eq!(x, ipv4_2_u32(&u32_2_ipv4_str(x)));
    }
    for s in ["1.0.0.0", "10.119.128.33", "223.255.254.0", "0.0.0.0"] {
        assert_eq!(s, u32_2_ipv4_str(ipv4_2_u32(s)));
    }
}

#[test]
fn mask_represents_edges() {
    let none = ipv4_count_2_mask_represents("1.0.0.0", 0);
    assert_eq!(0, none.len());
    let one = ipv4_count_2_mask_represents("1.0.0.0", 1);
    assert_eq!(vec!["1.0.0.0".to_string()], *one);
    let whole = ipv4_count_2_mask_represents("0.0.0.0", 0x8000_0000);
    assert_eq!(vec!["0.0.0.0/1".to_string()], *whole);
    let invalid = ipv4_count_2_mask_represents("not an address", 2);
    assert_eq!(vec!["0.0.0.0/31".to_string()], *invalid);
    let to_the_end = ipv4_count_2_mask_represents("255.255.255.0", 255);
    assert_eq!(8, to_the_end.len());
    assert_eq!("255.255.255.0/25", to_the_end[0]);
    assert_eq!("255.255.255.254", to_the_end[7]);
}

#[test]
fn mask_represents_tiles_the_range() {
    let start = ipv4_2_u32("10.0.0.0") as u64;
    for count in [1u32, 3, 255, 256, 312, 1000, 65535, 123456] {
        let blocks = ipv4_count_2_mask_represents("10.0.0.0", count);
        assert_eq!(count.count_ones() as usize, blocks.len());
        let mut next = start;
        let mut last_len = 0u64;
        for text in blocks.iter() {
            let (addr, len) = match text.split_once('/') {
                Some((a, l)) => (a, l.parse::<u64>().unwrap()),
                None => (text.as_str(), 32),
            };
            assert_eq!(next, ipv4_2_u32(addr) as u64);
            assert!(len > last_len);
            last_len = len;
            next += 1u64 << (32 - len);
        }
        assert_eq!(start + count as u64, next);
    }
}

#[test]
fn mask_represents_aligned_blocks() {
    let aligned = ipv4_count_2_mask_represents("192.168.0.0", 768);
    assert_eq!(vec!["192.168.0.0/23".to_string(), "192.168.2.0/24".to_string()], *aligned);
    for text in aligned.iter() {
        let (addr, len) = text.split_once('/').unwrap();
        let size = 1u64 << (32 - len.parse::<u64>().unwrap());
        assert_eq!(0, ipv4_2_u32(addr) as u64 % size);
    }
    // a start that is no multiple of the largest block gives blocks that
    // are not proper CIDR blocks
    let unaligned = ipv4_count_2_mask_represents("192.168.1.0", 768);
    assert_eq!(vec!["192.168.1.0/23".to_string(), "192.168.3.0/24".to_string()], *unaligned);
}

#[test]
fn mask_represents_split_at_a_bit() {
    let b = ipv4_2_u32("192.168.1.0");
    for (count, k) in [(312u32, 5u32), (312, 0), (312, 32), (1000, 3), (65535, 8)] {
        let lo = if k == 32 { count } else { count % (1u32 << k) };
        let hi = count - lo;
        let whole = ipv4_count_2_mask_represents("192.168.1.0", count);
        let mut parts = (*ipv4_count_2_mask_represents("192.168.1.0", hi)).clone();
        parts.extend((*ipv4_count_2_mask_represents(&u32_2_ipv4_str(b + hi), lo)).clone());
        assert_eq!(*whole, parts);
    }
}
