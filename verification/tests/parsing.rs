use d_shark::address::IpNet;
use d_shark::duration::{parse_duration, validate_duration};
use d_shark::error::ValidationError;
use d_shark::ipv4::Ip4Net;
use d_shark::ipv6::Ip6Net;
use d_shark::text::{append_decimal, parse_digits};

#[test]
fn durations_in_hours_minutes_and_seconds() {
    assert_eq!(parse_duration("2h"), Some(7200));
    assert_eq!(parse_duration("30m"), Some(1800));
    assert_eq!(parse_duration("45s"), Some(45));
    assert_eq!(parse_duration("0s"), Some(0));
    assert_eq!(parse_duration("1h"), Some(3600));
    assert_eq!(parse_duration("1m"), Some(60));
}

#[test]
fn durations_may_carry_a_plus_and_leading_zeros() {
    assert_eq!(parse_duration("+5s"), Some(5));
    assert_eq!(parse_duration("007m"), Some(420));
    assert_eq!(parse_duration("+00h"), Some(0));
    assert_eq!(parse_duration("00000000000000000000000000000003s"), Some(3));
}

#[test]
fn a_duration_is_checked() {
    assert_eq!(validate_duration("2h"), Ok(7200));
    assert_eq!(validate_duration("0s"), Ok(0));
    assert_eq!(validate_duration("2"), Err(ValidationError::InvalidDuration));
    assert_eq!(validate_duration(""), Err(ValidationError::InvalidDuration));
    assert_eq!(validate_duration("soon"), Err(ValidationError::InvalidDuration));
}

#[test]
fn durations_without_a_unit_are_refused() {
    assert_eq!(parse_duration(""), None);
    assert_eq!(parse_duration("5"), None);
    assert_eq!(parse_duration("5x"), None);
    assert_eq!(parse_duration("5d"), None);
    assert_eq!(parse_duration("5H"), None);
    assert_eq!(parse_duration("5 "), None);
}

#[test]
fn durations_without_a_number_are_refused() {
    assert_eq!(parse_duration("h"), None);
    assert_eq!(parse_duration("+s"), None);
    assert_eq!(parse_duration("-5s"), None);
    assert_eq!(parse_duration("++5s"), None);
    assert_eq!(parse_duration("5 s"), None);
    assert_eq!(parse_duration(" 5s"), None);
    assert_eq!(parse_duration("1.5h"), None);
    assert_eq!(parse_duration("abcm"), None);
    assert_eq!(parse_duration("5ss"), None);
    assert_eq!(parse_duration("５s"), None);
    assert_eq!(parse_duration("5é"), None);
}

#[test]
fn durations_that_do_not_fit_are_refused() {
    assert_eq!(parse_duration("18446744073709551615s"), Some(u64::MAX));
    assert_eq!(parse_duration("18446744073709551616s"), None);
    assert_eq!(parse_duration("99999999999999999999999s"), None);
    assert_eq!(parse_duration("307445734561825860m"), Some(307445734561825860 * 60));
    assert_eq!(parse_duration("307445734561825861m"), None);
    assert_eq!(parse_duration("5124095576030431h"), Some(5124095576030431 * 3600));
    assert_eq!(parse_duration("5124095576030432h"), None);
}

#[test]
fn digits_are_read_between_two_positions() {
    assert_eq!(parse_digits(b"ab123cd", 2, 5), Some(123));
    assert_eq!(parse_digits(b"ab123cd", 2, 2), None);
    assert_eq!(parse_digits(b"ab123cd", 1, 5), None);
    assert_eq!(parse_digits(b"ab123cd", 2, 6), None);
    assert_eq!(parse_digits(b"0", 0, 1), Some(0));
    assert_eq!(parse_digits(b"123", 2, 1), None);
    assert_eq!(parse_digits(b"123", 0, 4), None);
    assert_eq!(parse_digits(b"123", 5, 9), None);
    assert_eq!(parse_digits(b"18446744073709551615", 0, 20), Some(u64::MAX));
    assert_eq!(parse_digits(b"18446744073709551616", 0, 20), None);
}

#[test]
fn numbers_are_written_in_decimal() {
    let mut out = String::from("n=");
    append_decimal(&mut out, 0);
    out.push(',');
    append_decimal(&mut out, 7);
    out.push(',');
    append_decimal(&mut out, 1203);
    out.push(',');
    append_decimal(&mut out, u64::MAX);
    assert_eq!(out, "n=0,7,1203,18446744073709551615");
}

fn v4(addr: u32, prefix: u8) -> IpNet {
    IpNet::V4(Ip4Net { addr, prefix })
}

fn v6(addr: u128, prefix: u8) -> IpNet {
    IpNet::V6(Ip6Net { addr, prefix })
}

#[test]
fn addresses_are_read() {
    assert_eq!(IpNet::parse("10.0.0.5"), Some(v4(0x0a00_0005, 32)));
    assert_eq!(IpNet::parse("1.2.3.4"), Some(v4(0x0102_0304, 32)));
    assert_eq!(IpNet::parse("0.0.0.0"), Some(v4(0, 32)));
    assert_eq!(
        IpNet::parse("255.255.255.255"),
        Some(v4(0xffff_ffff, 32))
    );
    assert_eq!(IpNet::parse("192.168.1.100"), Some(v4(0xc0a8_0164, 32)));
}

#[test]
fn networks_are_read_and_their_host_bits_cleared() {
    assert_eq!(IpNet::parse("192.168.1.0/24"), Some(v4(0xc0a8_0100, 24)));
    assert_eq!(IpNet::parse("192.168.1.77/24"), Some(v4(0xc0a8_0100, 24)));
    assert_eq!(IpNet::parse("10.1.2.3/8"), Some(v4(0x0a00_0000, 8)));
    assert_eq!(IpNet::parse("10.1.2.3/0"), Some(v4(0, 0)));
    assert_eq!(IpNet::parse("10.1.2.3/32"), Some(v4(0x0a01_0203, 32)));
    assert_eq!(IpNet::parse("10.1.2.3/31"), Some(v4(0x0a01_0202, 31)));
    assert_eq!(IpNet::parse("255.255.255.255/1"), Some(v4(0x8000_0000, 1)));
}

#[test]
fn what_is_no_address_is_refused() {
    for bad in [
        "", ".", "1", "1.2.3", "1.2.3.", "1.2.3.4.", "1.2.3.4.5", ".1.2.3.4", "1..2.3",
        "256.1.1.1", "1.256.1.1", "1.1.1.256", "999.1.1.1", "1000.1.1.1", "01.2.3.4",
        "1.02.3.4", "1.2.3.04", "00.0.0.0", "a.b.c.d", "1.2.3.x", " 1.2.3.4", "1.2.3.4 ",
        "1.2.3.4\n", "1.2.3.4/", "1.2.3.4/33", "1.2.3.4/100", "1.2.3.4/08", "1.2.3.4/-1",
        "1.2.3.4/8/", "1.2.3.4/8 ", "1.2.3.4/a", "1,2,3,4", "１.2.3.4", "1.2.3.4é",
        "+1.2.3.4",
    ] {
        assert_eq!(IpNet::parse(bad), None, "{:?}", bad);
    }
}

#[test]
fn addresses_are_written_as_they_are_read() {
    for text in ["10.0.0.5", "0.0.0.0", "255.255.255.255", "192.168.1.0/24", "10.0.0.0/8", "0.0.0.0/0", "1.2.3.4/31"] {
        let ip = IpNet::parse(text).unwrap();
        assert_eq!(ip.to_text(), text);
        assert_eq!(IpNet::parse(&ip.to_text()), Some(ip));
    }
    assert_eq!(IpNet::parse("192.168.1.77/24").unwrap().to_text(), "192.168.1.0/24");
    assert_eq!(IpNet::parse("1.2.3.4/32").unwrap().to_text(), "1.2.3.4");
}

#[test]
fn a_network_is_made_from_an_address_and_a_prefix() {
    assert_eq!(Ip4Net::new(0x0a01_0203, 32), Some(Ip4Net { addr: 0x0a01_0203, prefix: 32 }));
    assert_eq!(Ip4Net::new(0x0a01_0203, 16), Some(Ip4Net { addr: 0x0a01_0000, prefix: 16 }));
    assert_eq!(Ip4Net::new(0xffff_ffff, 0), Some(Ip4Net { addr: 0, prefix: 0 }));
    assert_eq!(Ip4Net::new(0xffff_ffff, 1), Some(Ip4Net { addr: 0x8000_0000, prefix: 1 }));
    assert_eq!(Ip4Net::new(0x0a01_0203, 33), None);
    assert_eq!(Ip4Net::new(0, 255), None);
}

#[test]
fn addresses_of_the_later_family_are_read() {
    assert_eq!(IpNet::parse("::1"), Some(v6(1, 128)));
    assert_eq!(IpNet::parse("::"), Some(v6(0, 128)));
    assert_eq!(IpNet::parse("1::"), Some(v6(1 << 112, 128)));
    assert_eq!(
        IpNet::parse("2001:db8::1"),
        Some(v6(0x2001_0db8_0000_0000_0000_0000_0000_0001, 128))
    );
    assert_eq!(
        IpNet::parse("2001:0DB8:0:0:0:0:0:1"),
        Some(v6(0x2001_0db8_0000_0000_0000_0000_0000_0001, 128))
    );
    assert_eq!(
        IpNet::parse("1:2:3:4:5:6:7:8"),
        Some(v6(0x0001_0002_0003_0004_0005_0006_0007_0008, 128))
    );
    assert_eq!(
        IpNet::parse("1:2:3::7:8"),
        Some(v6(0x0001_0002_0003_0000_0000_0000_0007_0008, 128))
    );
    assert_eq!(
        IpNet::parse("1:2:3:4:5:6:7::"),
        Some(v6(0x0001_0002_0003_0004_0005_0006_0007_0000, 128))
    );
    assert_eq!(
        IpNet::parse("::2:3:4:5:6:7:8"),
        Some(v6(0x0000_0002_0003_0004_0005_0006_0007_0008, 128))
    );
    assert_eq!(
        IpNet::parse("ffff:ffff:ffff:ffff:ffff:ffff:ffff:ffff"),
        Some(v6(u128::MAX, 128))
    );
    assert_eq!(
        IpNet::parse("aBcD:Ef01::"),
        Some(v6(0xabcd_ef01_0000_0000_0000_0000_0000_0000, 128))
    );
}

#[test]
fn networks_of_the_later_family_are_read_and_their_host_bits_cleared() {
    assert_eq!(IpNet::parse("fe80::1/64"), Some(v6(0xfe80 << 112, 64)));
    assert_eq!(IpNet::parse("fe80::/10"), Some(v6(0xfe80 << 112, 10)));
    assert_eq!(IpNet::parse("ffff::/1"), Some(v6(1 << 127, 1)));
    assert_eq!(IpNet::parse("ffff::1/0"), Some(v6(0, 0)));
    assert_eq!(IpNet::parse("::1/128"), Some(v6(1, 128)));
    assert_eq!(IpNet::parse("::3/127"), Some(v6(2, 127)));
    assert_eq!(
        IpNet::parse("2001:db8:1:2:3:4:5:6/48"),
        Some(v6(0x2001_0db8_0001_0000_0000_0000_0000_0000, 48))
    );
}

#[test]
fn what_is_no_address_of_the_later_family_is_refused() {
    for bad in [
        ":", ":::", "1:", ":1", "1:2:3:4:5:6:7", "1:2:3:4:5:6:7:8:9", "1::2::3", "12345::",
        "g::1", "::g", "::1/129", "::1/", "::1/01", "::1/1000", "::1/a", "1:2:3:4:5:6:7::8",
        "1:2:3:4:5:6:7:8::", "::1 ", " ::1", "::ffff:1.2.3.4", "1:2:3:4:5:6:7:8/", "２::1",
        "::1%eth0", "1:2:3:4:5:6:7:8:", "::1/64/", "1::é", "[::1]",
    ] {
        assert_eq!(IpNet::parse(bad), None, "{:?}", bad);
    }
}

#[test]
fn addresses_of_the_later_family_are_written_in_full() {
    for (text, written) in [
        ("::1", "0:0:0:0:0:0:0:1"),
        ("::", "0:0:0:0:0:0:0:0"),
        ("2001:DB8::1", "2001:db8:0:0:0:0:0:1"),
        ("2001:0db8:00a0::/48", "2001:db8:a0:0:0:0:0:0/48"),
        ("fe80::1234:5/64", "fe80:0:0:0:0:0:0:0/64"),
        ("ffff:ffff:ffff:ffff:ffff:ffff:ffff:ffff/128", "ffff:ffff:ffff:ffff:ffff:ffff:ffff:ffff"),
        ("1:20:300:4000:5:60:700:8000/127", "1:20:300:4000:5:60:700:8000/127"),
        ("::/0", "0:0:0:0:0:0:0:0/0"),
    ] {
        let ip = IpNet::parse(text).unwrap();
        assert_eq!(ip.to_text(), written);
        assert_eq!(IpNet::parse(written), Some(ip));
    }
}

#[test]
fn a_network_of_the_later_family_is_made_from_an_address_and_a_prefix() {
    assert_eq!(Ip6Net::new(7, 128), Some(Ip6Net { addr: 7, prefix: 128 }));
    assert_eq!(Ip6Net::new(u128::MAX, 0), Some(Ip6Net { addr: 0, prefix: 0 }));
    assert_eq!(Ip6Net::new(u128::MAX, 1), Some(Ip6Net { addr: 1 << 127, prefix: 1 }));
    assert_eq!(Ip6Net::new(u128::MAX, 127), Some(Ip6Net { addr: u128::MAX - 1, prefix: 127 }));
    assert_eq!(Ip6Net::new(0xfe80 << 112 | 9, 64), Some(Ip6Net { addr: 0xfe80 << 112, prefix: 64 }));
    assert_eq!(Ip6Net::new(0, 129), None);
    assert_eq!(Ip6Net::new(0, 255), None);
}
