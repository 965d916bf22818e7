use rs_1brc::engine::StationValues;
use rs_1brc::summary::parse_summary;

fn key(s: &str) -> Vec<u8> {
    s.as_bytes().to_vec()
}

#[test]
fn summary_two_entries() {
    let text = b"{Adelaide=15.0/15.0/15.0, Cabo San Lucas=14.9/14.9/14.9}";
    let out = parse_summary(text).expect("well-formed summary");
    assert_eq!(
        out,
        vec![
            (key("Adelaide"), StationValues { min: 150, max: 150, mean: 150 }),
            (key("Cabo San Lucas"), StationValues { min: 149, max: 149, mean: 149 }),
        ]
    );
}

#[test]
fn summary_orders_min_mean_max() {
    // The rendered order is min/mean/max; the parsed triple is (min, max, mean).
    let out = parse_summary(b"{x=-1.5/2.0/7.5}").unwrap();
    assert_eq!(out, vec![(key("x"), StationValues { min: -15, max: 75, mean: 20 })]);
}

#[test]
fn summary_trims_whitespace() {
    let out = parse_summary(b"  \n{ a =1.0/1.0/1.0,  b=2.0/2.0/2.0}\n ").unwrap();
    assert_eq!(
        out,
        vec![
            (key("a"), StationValues { min: 10, max: 10, mean: 10 }),
            (key("b"), StationValues { min: 20, max: 20, mean: 20 }),
        ]
    );
}

#[test]
fn summary_rejects_malformed_text() {
    assert_eq!(parse_summary(b""), None);
    assert_eq!(parse_summary(b"{}"), None);
    assert_eq!(parse_summary(b"a=1.0/1.0/1.0"), None);
    assert_eq!(parse_summary(b"{a=1.0/1.0}"), None);
    assert_eq!(parse_summary(b"{a=1.0/1.0/x}"), None);
    assert_eq!(parse_summary(b"{a 1.0/1.0/1.0}"), None);
    assert_eq!(parse_summary(b"{a=1.0/1.0/1.0,}"), None);
}
