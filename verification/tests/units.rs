use rir_routes::addr::{ipv4_text, ipv6_text, parse_ipv4, parse_ipv6};
use rir_routes::cidr::{subdivide_range, CidrBlock};
use rir_routes::error::Error;
use rir_routes::filter::parse_countries;
use rir_routes::num::parse_dec;
use rir_routes::range::{merge_ranges, AddressRange};
use rir_routes::registry::Registry;

#[test]
fn greet_says_hello() {
    assert_eq!(rir_routes::greet(), "Hello, wasm-worker!");
}

#[test]
fn registry_urls() {
    assert_eq!(
        Registry::AFRINIC.stats_url(),
        "http://ftp.afrinic.net/pub/stats/afrinic/delegated-afrinic-latest"
    );
    assert_eq!(
        Registry::APNIC.stats_url(),
        "http://ftp.apnic.net/stats/apnic/delegated-apnic-latest"
    );
    assert_eq!(
        Registry::ARIN.stats_url(),
        "http://ftp.arin.net/pub/stats/arin/delegated-arin-extended-latest"
    );
    assert_eq!(
        Registry::LACNIC.stats_url(),
        "http://ftp.lacnic.net/pub/stats/lacnic/delegated-lacnic-latest"
    );
    assert_eq!(
        Registry::RIPE.stats_url(),
        "https://ftp.ripe.net/pub/stats/ripencc/delegated-ripencc-latest"
    );
}

#[test]
fn registry_is_all() {
    assert!(Registry::All.is_all());
    assert!(!Registry::APNIC.is_all());
}

#[test]
fn registry_from_name() {
    assert_eq!(Registry::from_name("afrinic"), Some(Registry::AFRINIC));
    assert_eq!(Registry::from_name("Ripe"), Some(Registry::RIPE));
    assert_eq!(Registry::from_name("ARIN"), Some(Registry::ARIN));
    assert_eq!(Registry::from_name("apnic"), Some(Registry::APNIC));
    assert_eq!(Registry::from_name("lacnic"), Some(Registry::LACNIC));
    assert_eq!(Registry::from_name("All"), Some(Registry::All));
    assert_eq!(Registry::from_name("ietf"), None);
}

#[test]
fn country_filter_include_exclude() {
    let inc = parse_countries("US,CN");
    assert!(!inc.excluding);
    assert!(inc.passes("US"));
    assert!(inc.passes("CN"));
    assert!(!inc.passes("JP"));
    let exc = parse_countries("!US,CN");
    assert!(exc.excluding);
    assert!(!exc.passes("US"));
    assert!(!exc.passes("CN"));
    assert!(exc.passes("JP"));
}

#[test]
fn decimal_parsing() {
    assert_eq!(parse_dec("007"), Some(7));
    assert_eq!(parse_dec("4294967295"), Some(4294967295));
    assert_eq!(parse_dec(""), None);
    assert_eq!(parse_dec("12a"), None);
    assert_eq!(parse_dec("340282366920938463463374607431768211455"), Some(u128::MAX));
    assert_eq!(parse_dec("340282366920938463463374607431768211456"), None);
}

#[test]
fn ipv4_parsing() {
    assert_eq!(parse_ipv4("1.2.3.4"), Some(0x01020304));
    assert_eq!(parse_ipv4("0.0.0.0"), Some(0));
    assert_eq!(parse_ipv4("255.255.255.255"), Some(0xFFFFFFFF));
    assert_eq!(parse_ipv4("256.0.0.1"), None);
    assert_eq!(parse_ipv4("01.2.3.4"), None);
    assert_eq!(parse_ipv4("1.2.3"), None);
    assert_eq!(parse_ipv4("1.2.3.4.5"), None);
    assert_eq!(parse_ipv4(""), None);
}

#[test]
fn ipv4_rendering() {
    assert_eq!(ipv4_text(0x01020304), "1.2.3.4");
    assert_eq!(ipv4_text(0), "0.0.0.0");
    assert_eq!(ipv4_text(0xFFFFFFFF), "255.255.255.255");
}

#[test]
fn ipv6_parsing() {
    let db8 = (0x2001u128 << 112) | (0x0db8u128 << 96);
    assert_eq!(parse_ipv6("2001:db8::"), Some(db8));
    assert_eq!(parse_ipv6("::"), Some(0));
    assert_eq!(parse_ipv6("::1"), Some(1));
    assert_eq!(parse_ipv6("::ffff"), Some(0xffff));
    assert_eq!(parse_ipv6("1:2:3:4:5:6:7:8"), Some(
        (1u128 << 112) | (2u128 << 96) | (3u128 << 80) | (4u128 << 64) | (5u128 << 48)
            | (6u128 << 32) | (7u128 << 16) | 8,
    ));
    assert_eq!(parse_ipv6("1:2:3:4:5:6:7:8:9"), None);
    assert_eq!(parse_ipv6(":::"), None);
    assert_eq!(parse_ipv6("a::b::c"), None);
    assert_eq!(parse_ipv6("fffg::"), None);
    assert_eq!(parse_ipv6(""), None);
    assert_eq!(parse_ipv6("12345::"), None);
}

#[test]
fn ipv6_rendering() {
    assert_eq!(ipv6_text(0), "::");
    assert_eq!(ipv6_text(1), "::1");
    let db8 = (0x2001u128 << 112) | (0x0db8u128 << 96);
    assert_eq!(ipv6_text(db8), "2001:db8::");
    assert_eq!(ipv6_text(db8 | 1), "2001:db8::1");
    let ones = (1u128 << 112) | (1u128 << 96) | (1u128 << 80) | (1u128 << 64) | (1u128 << 48)
        | (1u128 << 32) | (1u128 << 16) | 1;
    assert_eq!(ipv6_text(ones), "1:1:1:1:1:1:1:1");
    // a single zero group is not compressed
    assert_eq!(ipv6_text(ones & !(1u128 << 96)), "1:0:1:1:1:1:1:1");
}

#[test]
fn merge_coalesces_adjacent_ranges() {
    let input = vec![
        AddressRange { start: 10, last: 19 },
        AddressRange { start: 0, last: 4 },
        AddressRange { start: 5, last: 9 },
    ];
    let merged = merge_ranges(input).unwrap();
    assert_eq!(merged, vec![AddressRange { start: 0, last: 19 }]);
}

#[test]
fn merge_is_idempotent() {
    let input = vec![
        AddressRange { start: 0, last: 4 },
        AddressRange { start: 6, last: 9 },
    ];
    let once = merge_ranges(input).unwrap();
    let twice = merge_ranges(once.clone()).unwrap();
    assert_eq!(once, twice);
}

#[test]
fn merge_rejects_empty_input() {
    assert_eq!(merge_ranges(Vec::new()), Err(Error::RoutesEmpty));
}

#[test]
fn subdivision_is_aligned_and_covers() {
    // 12 addresses starting at a misaligned base
    let blocks = subdivide_range(AddressRange { start: 0xC0A80004, last: 0xC0A8000F }, 32);
    assert_eq!(
        blocks,
        vec![
            CidrBlock { base: 0xC0A80004, prefix: 30 },
            CidrBlock { base: 0xC0A80008, prefix: 29 },
        ]
    );
    let mut total: u128 = 0;
    let mut next = 0xC0A80004u128;
    for b in &blocks {
        let size = 1u128 << (32 - b.prefix);
        assert_eq!(b.base % size as u128, 0, "base aligned to block size");
        assert_eq!(b.base, next, "blocks are consecutive, no gap or overlap");
        next = b.base + size;
        total += size;
    }
    assert_eq!(total, 12);
}

#[test]
fn subdivision_whole_v4_space() {
    let blocks = subdivide_range(AddressRange { start: 0, last: 0xFFFFFFFF }, 32);
    assert_eq!(blocks, vec![CidrBlock { base: 0, prefix: 0 }]);
}

#[test]
fn subdivision_whole_v6_space() {
    let blocks = subdivide_range(AddressRange { start: 0, last: u128::MAX }, 128);
    assert_eq!(blocks, vec![CidrBlock { base: 0, prefix: 0 }]);
}

#[test]
fn error_messages() {
    assert_eq!(
        Error::RIRStatsMalformed(5).message(),
        "RIR stats is malformed at line 5."
    );
    assert_eq!(
        Error::RoutesEmpty.message(),
        "Either the upstream stats is empty or all records are filtered out."
    );
}
