use aggbgp::aggregate::{aggregate, parse_cidrs, Cidr};

fn strings(v: &[&str]) -> Vec<String> {
    v.iter().map(|s| s.to_string()).collect()
}

#[test]
fn aggregate_scenario_mixed_families() {
    let input = parse_cidrs(&strings(&[
        "10.0.0.0/24", "10.0.1.0/24", "10.0.1.1/24", "10.0.1.2/24",
        "10.0.2.0/24",
        "10.1.0.0/24", "10.1.1.0/24",
        "192.168.0.0/24", "192.168.1.0/24", "192.168.2.0/24", "192.168.3.0/24",
        "fd00::/32", "fd00:1::/32",
    ]));
    assert_eq!(input.len(), 13);
    let expected = parse_cidrs(&strings(&[
        "10.0.0.0/23", "10.0.2.0/24", "10.1.0.0/23", "192.168.0.0/22", "fd00::/31",
    ]));
    assert_eq!(aggregate(&input), expected);
}

#[test]
fn aggregate_two_halves_make_the_whole_space() {
    let input = vec![Cidr::V4 { addr: 0, len: 1 }, Cidr::V4 { addr: 0x8000_0000, len: 1 }];
    assert_eq!(aggregate(&input), vec![Cidr::V4 { addr: 0, len: 0 }]);
}

#[test]
fn aggregate_keeps_unaligned_neighbours_apart() {
    let input = vec![Cidr::V4 { addr: 0x0A00_0000, len: 24 }, Cidr::V4 { addr: 0x0A00_0200, len: 24 }];
    assert_eq!(aggregate(&input), input);
}

#[test]
fn aggregate_empty_input() {
    assert!(aggregate(&Vec::new()).is_empty());
}

#[test]
fn aggregate_single_host_and_host_bits() {
    let input = vec![Cidr::V4 { addr: 0x0A00_0001, len: 32 }];
    assert_eq!(aggregate(&input), input);
    let input = vec![Cidr::V4 { addr: 0x0A00_01FF, len: 23 }];
    assert_eq!(aggregate(&input), vec![Cidr::V4 { addr: 0x0A00_0000, len: 23 }]);
}

#[test]
fn aggregate_whole_ipv6_space_absorbs_the_rest() {
    let input = vec![
        Cidr::V6 { addr: 0xfd00 << 112, len: 32 },
        Cidr::V6 { addr: 0, len: 0 },
        Cidr::V6 { addr: u128::MAX, len: 128 },
    ];
    assert_eq!(aggregate(&input), vec![Cidr::V6 { addr: 0, len: 0 }]);
}

#[test]
fn aggregate_top_of_ipv6_space() {
    let input = vec![Cidr::V6 { addr: u128::MAX, len: 128 }, Cidr::V6 { addr: u128::MAX - 1, len: 128 }];
    assert_eq!(aggregate(&input), vec![Cidr::V6 { addr: u128::MAX - 1, len: 127 }]);
}

#[test]
fn aggregate_overlapping_and_unaligned_range() {
    // 10.0.0.1/32 .. 10.0.0.6/32 cut into aligned blocks.
    let input: Vec<Cidr> = (1u32..7).map(|a| Cidr::V4 { addr: 0x0A00_0000 + a, len: 32 }).collect();
    let expected = vec![
        Cidr::V4 { addr: 0x0A00_0001, len: 32 },
        Cidr::V4 { addr: 0x0A00_0002, len: 31 },
        Cidr::V4 { addr: 0x0A00_0004, len: 31 },
        Cidr::V4 { addr: 0x0A00_0006, len: 32 },
    ];
    assert_eq!(aggregate(&input), expected);
}

#[test]
fn aggregate_is_idempotent() {
    let input = parse_cidrs(&strings(&["10.0.0.0/24", "10.0.1.0/24", "10.0.3.0/24", "2001:db8::/33", "2001:db8:8000::/33"]));
    let once = aggregate(&input);
    assert_eq!(aggregate(&once), once);
}

#[test]
fn aggregate_ignores_input_order() {
    let a = parse_cidrs(&strings(&["192.168.3.0/24", "10.0.0.0/8", "192.168.2.0/24", "fd00::/16", "11.0.0.0/8"]));
    let mut b = a.clone();
    b.reverse();
    b.swap(0, 2);
    assert_eq!(aggregate(&a), aggregate(&b));
    assert_eq!(aggregate(&a), parse_cidrs(&strings(&["10.0.0.0/7", "192.168.2.0/23", "fd00::/16"])));
}

#[test]
fn parse_cidrs_reads_both_families_and_skips_others() {
    let parsed = parse_cidrs(&strings(&["10.0.1.1/24", "not a prefix", "10.0.0.0/33", "fd00:1::/32", "::/0"]));
    assert_eq!(parsed, vec![
        Cidr::V4 { addr: 0x0A00_0101, len: 24 },
        Cidr::V6 { addr: 0xfd00_0001 << 96, len: 32 },
        Cidr::V6 { addr: 0, len: 0 },
    ]);
}

#[test]
fn aggregate_is_never_longer_than_an_equivalent_list() {
    // Three prefixes that cover 10.0.0.0/24 exactly, and an unaligned range
    // written as single hosts.
    let input = parse_cidrs(&strings(&["10.0.0.128/26", "10.0.0.0/25", "10.0.0.192/26"]));
    assert_eq!(aggregate(&input), vec![Cidr::V4 { addr: 0x0A00_0000, len: 24 }]);
    let hosts: Vec<Cidr> = (1u32..7).map(|a| Cidr::V4 { addr: a, len: 32 }).collect();
    let out = aggregate(&hosts);
    assert!(out.len() <= hosts.len());
    assert_eq!(out.len(), 4);
}
