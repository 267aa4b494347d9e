use subnet_helper::subnet::{range_address, Subnet, SubnetError};

#[test]
fn test_total_ips_from_cidr() {
    let cidr_block_24 = "192.168.1.0/24";
    assert_eq!(Subnet::total_ips_from_cidr(cidr_block_24).unwrap(), 256);

    let cidr_block_30 = "192.168.1.0/30";
    assert_eq!(Subnet::total_ips_from_cidr(cidr_block_30).unwrap(), 4);
}

#[test]
fn test_get_subnet_mask_dec() {
    let cidr_block_24 = "192.168.1.0/24";
    assert_eq!(Subnet::get_subnet_mask_dec(cidr_block_24).unwrap(), vec![255, 255, 255, 0]);

    let cidr_block_16 = "192.168.0.0/16";
    assert_eq!(Subnet::get_subnet_mask_dec(cidr_block_16).unwrap(), vec![255, 255, 0, 0]);
}

#[test]
fn test_get_network_start() {
    let ip_address = vec![192, 168, 1, 10];
    let subnet_mask = vec![255, 255, 255, 0];
    let expected_network_start = vec![192, 168, 1, 0];
    assert_eq!(
        Subnet::get_network_start(&ip_address, &subnet_mask).unwrap(),
        expected_network_start
    );

    let ip_address = vec![10, 0, 0, 15];
    let subnet_mask = vec![255, 0, 0, 0];
    let expected_network_start = vec![10, 0, 0, 0];
    assert_eq!(
        Subnet::get_network_start(&ip_address, &subnet_mask).unwrap(),
        expected_network_start
    );
}

#[test]
fn test_cidr_str_to_network_vec() {
    let cidr_block = "192.168.1.1/24";
    let expected_vec = vec![192, 168, 1, 1];
    assert_eq!(Subnet::cidr_str_to_network_vec(cidr_block).unwrap(), expected_vec);

    let cidr_block = "10.0.0.1/16";
    let expected_vec = vec![10, 0, 0, 1];
    assert_eq!(Subnet::cidr_str_to_network_vec(cidr_block).unwrap(), expected_vec);

    let cidr_block = "23.165.24.1/24";
    let expected_vec = vec![23, 165, 24, 1];
    assert_eq!(Subnet::cidr_str_to_network_vec(cidr_block).unwrap(), expected_vec);
}

#[test]
fn test_malformed_inputs_rejected() {
    assert!(matches!(Subnet::new("192.168.1.0"), Err(SubnetError::MalformedCidr)));
    assert!(matches!(Subnet::new("192.168.1.256/24"), Err(SubnetError::InvalidOctet)));
    assert!(matches!(Subnet::new("192.168.1.0/33"), Err(SubnetError::InvalidPrefixLength)));
}

#[test]
fn test_more_malformed_inputs() {
    assert!(matches!(Subnet::new(""), Err(SubnetError::MalformedCidr)));
    assert!(matches!(Subnet::new("1.2.3.4/24/5"), Err(SubnetError::MalformedCidr)));
    assert!(matches!(Subnet::new("1.2.3/24"), Err(SubnetError::InvalidOctet)));
    assert!(matches!(Subnet::new("1.2.3.4.5/24"), Err(SubnetError::InvalidOctet)));
    assert!(matches!(Subnet::new("a.b.c.d/24"), Err(SubnetError::InvalidOctet)));
    assert!(matches!(Subnet::new("1.2.3.4/"), Err(SubnetError::InvalidPrefixLength)));
    assert!(matches!(Subnet::new("1.2.3.4/x"), Err(SubnetError::InvalidPrefixLength)));
}

#[test]
fn test_scenario_slash_24() {
    let subnet = Subnet::new("192.168.1.0/24").unwrap();
    assert_eq!(subnet.subnet_mask(), vec![255, 255, 255, 0]);
    assert_eq!(subnet.network_start(), vec![192, 168, 1, 0]);
    assert_eq!(subnet.total_addresses(), 256);
    assert_eq!(subnet.address_at(0), "192.168.1.0");
    assert_eq!(subnet.address_at(255), "192.168.1.255");
    assert_eq!(subnet.cidr_block(), "192.168.1.0/24");
}

#[test]
fn test_scenario_slash_30() {
    let subnet = Subnet::new("192.168.1.0/30").unwrap();
    assert_eq!(subnet.total_addresses(), 4);
    let mut lines: Vec<String> = Vec::new();
    for i in 0..subnet.total_addresses() {
        lines.push(subnet.address_at(i));
    }
    assert_eq!(lines, vec!["192.168.1.0", "192.168.1.1", "192.168.1.2", "192.168.1.3"]);
}

#[test]
fn test_scenario_host_bits_masked() {
    let subnet = Subnet::new("10.0.0.1/16").unwrap();
    assert_eq!(subnet.network_start(), vec![10, 0, 0, 0]);
    assert_eq!(subnet.total_addresses(), 65536);
}

#[test]
fn test_byte_round_trip() {
    for x in [0u32, 1, 255, 256, 0x0A000001, 0xC0A80100, 0x80000000, 0xFFFFFFFF] {
        let bytes = subnet_helper::addr::u32_to_be(x);
        assert_eq!(bytes.len(), 4);
        assert_eq!(subnet_helper::addr::be_to_u32(&bytes), x);
    }
    assert_eq!(subnet_helper::addr::u32_to_be(0xC0A80100), vec![192, 168, 1, 0]);
}

#[test]
fn test_mask_edges() {
    assert_eq!(Subnet::get_subnet_mask_dec("0.0.0.0/0").unwrap(), vec![0, 0, 0, 0]);
    assert_eq!(Subnet::get_subnet_mask_dec("1.2.3.4/1").unwrap(), vec![128, 0, 0, 0]);
    assert_eq!(Subnet::get_subnet_mask_dec("1.2.3.4/31").unwrap(), vec![255, 255, 255, 254]);
    assert_eq!(Subnet::get_subnet_mask_dec("1.2.3.4/32").unwrap(), vec![255, 255, 255, 255]);
}

#[test]
fn test_total_addresses_edges() {
    assert_eq!(Subnet::total_ips_from_cidr("0.0.0.0/0").unwrap(), 4294967296u64);
    assert_eq!(Subnet::total_ips_from_cidr("1.2.3.4/32").unwrap(), 1);
    let subnet = Subnet::new("9.9.9.9/0").unwrap();
    assert_eq!(subnet.network_start(), vec![0, 0, 0, 0]);
    assert_eq!(subnet.total_addresses(), 4294967296u64);
    assert_eq!(subnet.address_at(0), "0.0.0.0");
    assert_eq!(subnet.address_at(4294967295), "255.255.255.255");
}

#[test]
fn test_length_mismatch() {
    let short = vec![1, 2, 3];
    let mask = vec![255, 255, 255, 0];
    assert!(matches!(
        Subnet::get_network_start(&short, &mask),
        Err(SubnetError::LengthMismatch)
    ));
}

#[test]
fn test_address_space_overflow() {
    let top = vec![255, 255, 255, 255];
    assert!(matches!(range_address(&top, 2, 0), Err(SubnetError::AddressSpaceOverflow)));
    assert_eq!(range_address(&top, 1, 0).unwrap(), "255.255.255.255");
    let base = vec![255, 255, 255, 0];
    assert_eq!(range_address(&base, 256, 7).unwrap(), "255.255.255.7");
    assert!(matches!(range_address(&base, 257, 0), Err(SubnetError::AddressSpaceOverflow)));
}

#[test]
fn test_leading_zeros_accepted() {
    assert_eq!(Subnet::cidr_str_to_network_vec("010.0.0.001/8").unwrap(), vec![10, 0, 0, 1]);
    assert_eq!(Subnet::total_ips_from_cidr("10.0.0.1/08").unwrap(), 16777216);
}

#[test]
fn test_address_rendering() {
    let subnet = Subnet::new("0.0.0.0/32").unwrap();
    assert_eq!(subnet.address_at(0), "0.0.0.0");
    let subnet = Subnet::new("255.255.255.255/32").unwrap();
    assert_eq!(subnet.address_at(0), "255.255.255.255");
    let subnet = Subnet::new("12.34.56.78/32").unwrap();
    assert_eq!(subnet.address_at(0), "12.34.56.78");
    let subnet = Subnet::new("1.0.200.9/32").unwrap();
    assert_eq!(subnet.address_at(0), "1.0.200.9");
}

#[test]
fn test_error_message() {
    let e = match Subnet::new("192.168.1.0") {
        Err(e) => e,
        Ok(_) => panic!("input without a prefix must be rejected"),
    };
    assert_eq!(e.message(), "CIDR block must be in the format IP/PREFIX");
}
