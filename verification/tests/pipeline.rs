use rir_routes::error::Error;
use rir_routes::routes::{routes_from_rir_stats, routes_from_rir_stats6};

#[test]
fn two_adjacent_v4_records_become_one_block() {
    let input = "arin|US|ipv4|10.0.0.0|256|20200101|allocated\n\
                 arin|US|ipv4|10.0.1.0|256|20200101|allocated\n";
    assert_eq!(routes_from_rir_stats(input, "US"), Ok("10.0.0.0/23\n".to_string()));
}

#[test]
fn v6_prefix_field_names_a_count() {
    let input = "apnic|JP|ipv6|2001:db8::|32|20200101|allocated\n";
    assert_eq!(routes_from_rir_stats6(input, "JP"), Ok("2001:db8::/32\n".to_string()));
}

#[test]
fn misaligned_range_splits_without_loss() {
    let input = "arin|US|ipv4|192.168.0.4|12|20200101|allocated\n";
    assert_eq!(
        routes_from_rir_stats(input, "US"),
        Ok("192.168.0.4/30\n192.168.0.8/29\n".to_string())
    );
}

#[test]
fn filtered_to_nothing_is_an_error() {
    let input = "arin|CN|ipv4|1.0.0.0|256|20200101|allocated\n";
    assert_eq!(routes_from_rir_stats(input, "US"), Err(Error::RoutesEmpty));
}

#[test]
fn empty_input_is_an_error() {
    assert_eq!(routes_from_rir_stats("", "US"), Err(Error::RoutesEmpty));
}

#[test]
fn exclusion_marker_inverts_the_filter() {
    let input = "arin|CN|ipv4|1.0.0.0|256|20200101|allocated\n";
    assert_eq!(routes_from_rir_stats(input, "!US"), Ok("1.0.0.0/24\n".to_string()));
}

#[test]
fn malformed_address_reports_its_line_number() {
    let input = "#comment one\n#comment two\n\n#comment four\n\
                 arin|US|ipv4|10.0.0.zz|256|20200101|allocated\n";
    assert_eq!(routes_from_rir_stats(input, "US"), Err(Error::RIRStatsMalformed(5)));
}

#[test]
fn excluded_malformed_line_still_errors() {
    // parsing comes before filtering: a malformed family line fails the call
    // even when its country would be filtered out
    let input = "arin|CN|ipv4|10.0.0.zz|256|20200101|allocated\n";
    assert_eq!(routes_from_rir_stats(input, "US"), Err(Error::RIRStatsMalformed(1)));
}

#[test]
fn excluded_wellformed_line_is_dropped_after_parsing() {
    let input = "arin|CN|ipv4|1.0.0.0|256|20200101|allocated\n\
                 arin|US|ipv4|10.0.0.0|256|20200101|allocated\n";
    assert_eq!(routes_from_rir_stats(input, "US"), Ok("10.0.0.0/24\n".to_string()));
}

#[test]
fn pipeline_is_a_fixed_point_on_its_output() {
    let input = "arin|US|ipv4|192.168.0.4|12|20200101|allocated\n";
    let out1 = routes_from_rir_stats(input, "US").unwrap();
    // re-encode each emitted block as one delegation record
    let mut raw2 = String::new();
    for line in out1.lines() {
        let (addr, prefix) = line.split_once('/').unwrap();
        let count = 1u64 << (32 - prefix.parse::<u32>().unwrap());
        raw2.push_str(&format!("arin|US|ipv4|{}|{}|20200101|allocated\n", addr, count));
    }
    assert_eq!(routes_from_rir_stats(&raw2, "US"), Ok(out1));
}

#[test]
fn malformed_count_reports_its_line_number() {
    let input = "arin|US|ipv4|10.0.0.0|abc|20200101|allocated\n";
    assert_eq!(routes_from_rir_stats(input, "US"), Err(Error::RIRStatsMalformed(1)));
}

#[test]
fn v6_prefix_out_of_range_is_malformed() {
    let zero = "apnic|JP|ipv6|2001:db8::|0|20200101|allocated\n";
    assert_eq!(routes_from_rir_stats6(zero, "JP"), Err(Error::RIRStatsMalformed(1)));
    let large = "apnic|JP|ipv6|2001:db8::|129|20200101|allocated\n";
    assert_eq!(routes_from_rir_stats6(large, "JP"), Err(Error::RIRStatsMalformed(1)));
}

#[test]
fn range_leaving_the_address_space_is_malformed() {
    let input = "arin|US|ipv4|255.255.255.0|512|20200101|allocated\n";
    assert_eq!(routes_from_rir_stats(input, "US"), Err(Error::RIRStatsMalformed(1)));
}

#[test]
fn short_lines_and_other_families_are_skipped() {
    let input = "arin|US|ipv4|10.0.0.0|256\n\
                 arin|US|ipv6|2001:db8::|32|20200101|allocated\n\
                 arin|US|asn|64512|1|20200101|allocated\n\
                 arin|US|ipv4|10.0.0.0|256|20200101|allocated\n";
    assert_eq!(routes_from_rir_stats(input, "US"), Ok("10.0.0.0/24\n".to_string()));
}

#[test]
fn zero_length_delegations_are_dropped() {
    let input = "arin|US|ipv4|10.0.0.0|0|20200101|allocated\n";
    assert_eq!(routes_from_rir_stats(input, "US"), Err(Error::RoutesEmpty));
}

#[test]
fn two_v6_halves_merge_to_the_whole_space() {
    let input = "apnic|JP|ipv6|::|1|20200101|allocated\n\
                 apnic|JP|ipv6|8000::|1|20200101|allocated\n";
    assert_eq!(routes_from_rir_stats6(input, "JP"), Ok("::/0\n".to_string()));
}

#[test]
fn unsorted_records_are_sorted_before_merging() {
    let input = "arin|US|ipv4|10.0.1.0|256|20200101|allocated\n\
                 arin|US|ipv4|10.0.0.0|256|20200101|allocated\n";
    assert_eq!(routes_from_rir_stats(input, "US"), Ok("10.0.0.0/23\n".to_string()));
}

#[test]
fn disjoint_records_stay_separate() {
    let input = "arin|US|ipv4|10.0.0.0|256|20200101|allocated\n\
                 arin|US|ipv4|10.0.2.0|256|20200101|allocated\n";
    assert_eq!(
        routes_from_rir_stats(input, "US"),
        Ok("10.0.0.0/24\n10.0.2.0/24\n".to_string())
    );
}
