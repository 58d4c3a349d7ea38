use station_stats::acc::Acc;
use station_stats::decode::Measurement;
use station_stats::stats::{merge_dicts, process_line, Stats};

fn fields(a: Acc) -> (i32, i32, i128, u64) {
    (a.min, a.max, a.total, a.count)
}

fn folded<'a>(lines: &[&'a [u8]]) -> Stats<'a> {
    let mut stats = Stats::new();
    for line in lines {
        stats = process_line(stats, line).expect("the line is a record");
    }
    stats
}

fn listed(stats: &Stats) -> Vec<(Vec<u8>, (i32, i32, i128, u64))> {
    let mut out = Vec::new();
    for i in 0..stats.len() {
        let st = stats.station(i);
        out.push((st.name.to_vec(), fields(st.acc)));
    }
    out
}

#[test]
fn nothing_seen_yet() {
    let stats = Stats::new();
    assert_eq!(stats.len(), 0);
    assert_eq!(stats.observations(), 0);
    assert!(stats.get(b"Oslo").is_none());
}

#[test]
fn a_new_station_starts_with_its_value() {
    let mut stats = Stats::new();
    stats.update(Measurement { name: b"Oslo", value: 450 });
    assert_eq!(stats.len(), 1);
    assert_eq!(stats.observations(), 1);
    assert_eq!(fields(stats.get(b"Oslo").unwrap()), (450, 450, 450, 1));
    assert!(stats.get(b"Osl").is_none());
    assert!(stats.get(b"Oslo ").is_none());
}

#[test]
fn a_known_station_takes_the_value_in() {
    let mut stats = Stats::new();
    stats.update(Measurement { name: b"Oslo", value: 450 });
    stats.update(Measurement { name: b"Lima", value: 2100 });
    stats.update(Measurement { name: b"Oslo", value: -150 });
    stats.update(Measurement { name: b"Oslo", value: 100 });
    assert_eq!(stats.len(), 2);
    assert_eq!(stats.observations(), 4);
    assert_eq!(fields(stats.get(b"Oslo").unwrap()), (-150, 450, 400, 3));
    assert_eq!(fields(stats.get(b"Lima").unwrap()), (2100, 2100, 2100, 1));
}

#[test]
fn process_line_decodes_and_folds() {
    let stats = folded(&[b"Hamburg;12.0", b"Bulawayo;8.9", b"Hamburg;14.0"]);
    assert_eq!(
        listed(&stats),
        vec![
            (b"Bulawayo".to_vec(), (890, 890, 890, 1)),
            (b"Hamburg".to_vec(), (1200, 1400, 2600, 2)),
        ]
    );
    assert_eq!(stats.observations(), 3);
}

#[test]
fn process_line_fails_on_a_malformed_line() {
    let stats = folded(&[b"Hamburg;12.0"]);
    assert!(process_line(stats, b"Hamburg;twelve").is_err());
    assert!(process_line(Stats::new(), b"").is_err());
}

#[test]
fn stations_stand_in_byte_order_whatever_the_order_seen() {
    let names: [&[u8]; 9] =
        [b"b;1.0", b"a;1.0", b"ab;1.0", b"B;1.0", b"aa;1.0", b"Z;1.0", b";1.0", b"a;2.0", b"\xc3\x89;1.0"];
    let stats = folded(&names);
    let got: Vec<Vec<u8>> = listed(&stats).into_iter().map(|(n, _)| n).collect();
    let mut want = got.clone();
    want.sort();
    want.dedup();
    assert_eq!(got, want);
    assert_eq!(got.len(), 8);
    assert_eq!(got[0], b"".to_vec());
    assert_eq!(got[7], b"\xc3\x89".to_vec());
}

#[test]
fn merge_joins_stations_of_both_and_keeps_the_others() {
    let a = folded(&[b"Hamburg;12.0", b"Bulawayo;8.9"]);
    let b = folded(&[b"Hamburg;14.0", b"Cracow;-1.5", b"Hamburg;-2.0"]);
    let m = merge_dicts(a, b);
    assert_eq!(
        listed(&m),
        vec![
            (b"Bulawayo".to_vec(), (890, 890, 890, 1)),
            (b"Cracow".to_vec(), (-150, -150, -150, 1)),
            (b"Hamburg".to_vec(), (-200, 1400, 2400, 3)),
        ]
    );
    assert_eq!(m.observations(), 5);
}

#[test]
fn merge_with_nothing() {
    let a = folded(&[b"Hamburg;12.0", b"Bulawayo;8.9"]);
    let want = listed(&a);
    let m = merge_dicts(a, Stats::new());
    assert_eq!(listed(&m), want);
    let m = merge_dicts(Stats::new(), m);
    assert_eq!(listed(&m), want);
    assert_eq!(m.observations(), 2);
    let none = merge_dicts(Stats::new(), Stats::new());
    assert_eq!(none.len(), 0);
}

#[test]
fn merge_in_either_order() {
    let one: [&[u8]; 3] = [b"a;1.0", b"b;2.0", b"a;-3.0"];
    let two: [&[u8]; 3] = [b"c;9.9", b"a;0.0", b"b;-99.9"];
    let ab = merge_dicts(folded(&one), folded(&two));
    let ba = merge_dicts(folded(&two), folded(&one));
    assert_eq!(listed(&ab), listed(&ba));
    assert_eq!(ab.observations(), ba.observations());
}

#[test]
fn merge_in_either_grouping() {
    let one: [&[u8]; 2] = [b"a;1.0", b"b;2.0"];
    let two: [&[u8]; 2] = [b"a;0.0", b"c;-99.9"];
    let three: [&[u8]; 3] = [b"c;9.9", b"b;5.5", b"d;1.1"];
    let left = merge_dicts(merge_dicts(folded(&one), folded(&two)), folded(&three));
    let right = merge_dicts(folded(&one), merge_dicts(folded(&two), folded(&three)));
    assert_eq!(listed(&left), listed(&right));
}

#[test]
fn any_split_of_the_records_merges_to_the_same() {
    let records: [&[u8]; 8] = [
        b"a;1.0", b"b;2.0", b"a;-3.0", b"c;9.9", b"a;0.0", b"b;-99.9", b"d;4.4", b"c;-0.1",
    ];
    let want = listed(&folded(&records));
    for cut in 0..=records.len() {
        let (head, tail) = records.split_at(cut);
        assert_eq!(listed(&merge_dicts(folded(head), folded(tail))), want);
        assert_eq!(listed(&merge_dicts(folded(tail), folded(head))), want);
    }
    let mut turned = records;
    turned.reverse();
    assert_eq!(listed(&folded(&turned)), want);
}

#[test]
fn every_station_keeps_its_mean_between_its_extremes() {
    let mut lines = Vec::new();
    let mut v: i64 = 7;
    for _ in 0..2_000 {
        v = (v * 6_364_136_223 + 1_442_695) % 1_999;
        let tenths = v - 999;
        lines.push(format!(
            "s{};{}{}.{}",
            v % 13,
            if tenths < 0 { "-" } else { "" },
            tenths.abs() / 10,
            tenths.abs() % 10
        ));
    }
    let mut stats = Stats::new();
    for line in &lines {
        stats = process_line(stats, line.as_bytes()).unwrap();
    }
    assert_eq!(stats.observations(), 2_000);
    let mut seen: u64 = 0;
    for i in 0..stats.len() {
        let acc = stats.station(i).acc;
        let count = acc.count as i128;
        assert!(count >= 1);
        assert!(count * (acc.min as i128) <= acc.total);
        assert!(acc.total <= count * (acc.max as i128));
        seen += acc.count;
    }
    assert_eq!(seen, 2_000);
}
