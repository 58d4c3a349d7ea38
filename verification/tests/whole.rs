use station_stats::report::report;
use station_stats::stats::Stats;
use station_stats::tally::{aggregate, aggregate_parts, summarize};

fn listed(stats: &Stats) -> Vec<(Vec<u8>, i32, i32, i128, u64)> {
    let mut out = Vec::new();
    for i in 0..stats.len() {
        let st = stats.station(i);
        out.push((st.name.to_vec(), st.acc.min, st.acc.max, st.acc.total, st.acc.count));
    }
    out
}

fn summary(input: &[u8]) -> String {
    String::from_utf8(summarize(input).expect("every line is a record")).unwrap()
}

fn sample(records: usize) -> Vec<u8> {
    let names = ["Hamburg", "Bulawayo", "Oslo", "San Jose", "Z\u{fc}rich", "A", "Ab", "St. John's"];
    let mut out = Vec::new();
    let mut v: i64 = 11;
    for _ in 0..records {
        v = (v * 25_214_903_917 + 11) % 1_999_993;
        let tenths = v % 1_999 - 999;
        out.extend_from_slice(names[(v % 8) as usize].as_bytes());
        out.extend_from_slice(
            format!(
                ";{}{}.{}\n",
                if tenths < 0 { "-" } else { "" },
                tenths.abs() / 10,
                tenths.abs() % 10
            )
            .as_bytes(),
        );
    }
    out
}

#[test]
fn two_stations_in_name_order() {
    let input = b"Hamburg;12.0\nBulawayo;8.9\nHamburg;14.0\n";
    let stats = aggregate(input).expect("every line is a record");
    let text = report(&stats);
    assert_eq!(
        String::from_utf8(text).unwrap(),
        "{Bulawayo=8.9/8.9/8.9, Hamburg=12.0/13.0/14.0}"
    );
    assert_eq!(summary(input), "{Bulawayo=8.9/8.9/8.9, Hamburg=12.0/13.0/14.0}");
}

#[test]
fn one_station_below_and_above_zero() {
    let input = b"Reykjavik;-3.2\nReykjavik;1.0\n";
    let stats = aggregate(input).expect("every line is a record");
    let text = report(&stats);
    assert_eq!(String::from_utf8(text).unwrap(), "{Reykjavik=-3.2/-1.1/1.0}");
    assert_eq!(summary(input), "{Reykjavik=-3.2/-1.1/1.0}");
}

#[test]
fn the_last_newline_may_be_missing() {
    assert_eq!(summary(b"Oslo;1.0\nOslo;2.0"), "{Oslo=1.0/1.5/2.0}");
}

#[test]
fn blank_lines_are_passed_over() {
    assert_eq!(summary(b"\n\nOslo;1.0\n\nLima;2.0\n\n\n"), "{Lima=2.0/2.0/2.0, Oslo=1.0/1.0/1.0}");
}

#[test]
fn no_record_no_station() {
    assert_eq!(summary(b""), "{}");
    assert_eq!(summary(b"\n\n"), "{}");
    assert_eq!(aggregate(b"").unwrap().len(), 0);
    assert_eq!(aggregate_parts(b"", 4).unwrap().len(), 0);
}

#[test]
fn one_malformed_line_fails_the_whole() {
    assert!(aggregate(b"Oslo;1.0\nOslo;one\nLima;2.0\n").is_err());
    assert!(aggregate(b"Oslo;1.0\nLima;2.0\nx").is_err());
    assert!(aggregate(b"Oslo;1.0\r\nLima;2.0\r\n").is_err());
    assert!(summarize(b"Oslo;1.0\nOslo 2.0\n").is_err());
    for parts in 1..8 {
        assert!(aggregate_parts(b"Oslo;1.0\nOslo;one\nLima;2.0\n", parts).is_err());
        assert!(aggregate_parts(b"Oslo;1.0\nLima;2.0\nOslo;3.0\nLima;4.0\nx", parts).is_err());
        assert!(aggregate_parts(b"x\nOslo;1.0\nLima;2.0\nOslo;3.0\nLima;4.0\n", parts).is_err());
    }
}

#[test]
fn every_line_is_counted() {
    let input = sample(500);
    let stats = aggregate(&input).unwrap();
    assert_eq!(stats.observations(), 500);
    assert_eq!(stats.len(), 8);
    let stats = aggregate_parts(&input, 7).unwrap();
    assert_eq!(stats.observations(), 500);
    assert_eq!(stats.len(), 8);
}

#[test]
fn the_parts_give_what_the_whole_gives() {
    let input = sample(3_000);
    let whole = aggregate(&input).unwrap();
    let want = listed(&whole);
    let text = report(&whole);
    for parts in [1, 2, 3, 4, 5, 8, 16, 64, 1_000, 100_000, usize::MAX] {
        let stats = aggregate_parts(&input, parts).unwrap();
        assert_eq!(listed(&stats), want);
        assert_eq!(report(&stats), text);
    }
}

#[test]
fn the_parts_give_the_known_statistics() {
    let input = b"Hamburg;12.0\nBulawayo;8.9\nHamburg;14.0\nOslo;-1.5\nBulawayo;-8.9\nOslo;2.5\n";
    for parts in 1..10 {
        let stats = aggregate_parts(input, parts).unwrap();
        assert_eq!(
            listed(&stats),
            vec![
                (b"Bulawayo".to_vec(), -890, 890, 0, 2),
                (b"Hamburg".to_vec(), 1200, 1400, 2600, 2),
                (b"Oslo".to_vec(), -150, 250, 100, 2),
            ]
        );
        assert_eq!(
            String::from_utf8(report(&stats)).unwrap(),
            "{Bulawayo=-8.9/0.0/8.9, Hamburg=12.0/13.0/14.0, Oslo=-1.5/0.5/2.5}"
        );
    }
}

#[test]
fn the_order_of_the_records_does_not_matter() {
    let forward = b"a;1.0\nb;2.0\na;-3.0\nc;9.9\na;0.0\nb;-99.9\n";
    let backward = b"b;-99.9\na;0.0\nc;9.9\na;-3.0\nb;2.0\na;1.0\n";
    assert_eq!(listed(&aggregate(forward).unwrap()), listed(&aggregate(backward).unwrap()));
    assert_eq!(summary(forward), summary(backward));
    assert_eq!(summary(forward), "{a=-3.0/-0.7/1.0, b=-99.9/-49.0/2.0, c=9.9/9.9/9.9}");
}

#[test]
fn the_summary_is_in_byte_order_of_the_names() {
    let input = "Zürich;1.0\nabc;1.0\nZz;1.0\nAbc;1.0\n;1.0\nab;1.0\n".as_bytes();
    assert_eq!(
        summary(input),
        "{=1.0/1.0/1.0, Abc=1.0/1.0/1.0, Zz=1.0/1.0/1.0, Zürich=1.0/1.0/1.0, ab=1.0/1.0/1.0, abc=1.0/1.0/1.0}"
    );
}
