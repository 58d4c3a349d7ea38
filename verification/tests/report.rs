use station_stats::acc::Acc;
use station_stats::report::{render, report, results, Final};
use station_stats::rounding::round_nearest;
use station_stats::stats::{process_line, Stats};

fn shown(acc: Acc) -> (i32, i32, i32) {
    let f = Final::from(acc);
    (f.min, f.avg, f.max)
}

fn text(f: Final) -> String {
    String::from_utf8(f.to_text()).unwrap()
}

fn folded<'a>(lines: &[&'a [u8]]) -> Stats<'a> {
    let mut stats = Stats::new();
    for line in lines {
        stats = process_line(stats, line).expect("the line is a record");
    }
    stats
}

#[test]
fn rounding_goes_to_the_nearest() {
    assert_eq!(round_nearest(0, 10), 0);
    assert_eq!(round_nearest(4, 10), 0);
    assert_eq!(round_nearest(6, 10), 1);
    assert_eq!(round_nearest(14, 10), 1);
    assert_eq!(round_nearest(16, 10), 2);
    assert_eq!(round_nearest(-4, 10), 0);
    assert_eq!(round_nearest(-6, 10), -1);
    assert_eq!(round_nearest(-16, 10), -2);
    assert_eq!(round_nearest(1200, 10), 120);
    assert_eq!(round_nearest(-9990, 10), -999);
    assert_eq!(round_nearest(7, 3), 2);
    assert_eq!(round_nearest(8, 3), 3);
    assert_eq!(round_nearest(1, 1), 1);
}

#[test]
fn rounding_sends_a_tie_to_the_even_side() {
    assert_eq!(round_nearest(5, 10), 0);
    assert_eq!(round_nearest(15, 10), 2);
    assert_eq!(round_nearest(25, 10), 2);
    assert_eq!(round_nearest(35, 10), 4);
    assert_eq!(round_nearest(-5, 10), 0);
    assert_eq!(round_nearest(-15, 10), -2);
    assert_eq!(round_nearest(-25, 10), -2);
    assert_eq!(round_nearest(1, 2), 0);
    assert_eq!(round_nearest(3, 2), 2);
    assert_eq!(round_nearest(50, 20), 2);
    assert_eq!(round_nearest(70, 20), 4);
}

#[test]
fn rounding_of_large_numbers() {
    let big: i128 = 1 << 100;
    assert_eq!(round_nearest(big, 1 << 92), 256);
    assert_eq!(round_nearest(-big, 1 << 92), -256);
    assert_eq!(round_nearest(big + 5, 10), big / 10 + 1);
    assert_eq!(round_nearest(i32::MIN as i128, 10), -214_748_365);
    assert_eq!(round_nearest(i32::MAX as i128, 10), 214_748_365);
}

#[test]
fn a_station_seen_once_shows_its_value_three_times() {
    assert_eq!(shown(Acc::from(1200)), (120, 120, 120));
    assert_eq!(shown(Acc::from(-320)), (-32, -32, -32));
    assert_eq!(shown(Acc::from(0)), (0, 0, 0));
    assert_eq!(text(Final::from(Acc::from(890))), "8.9/8.9/8.9");
    assert_eq!(text(Final::from(Acc::from(-9990))), "-99.9/-99.9/-99.9");
}

#[test]
fn the_mean_is_the_sum_by_the_count() {
    let mut a = Acc::from(1200);
    a.update(1400);
    assert_eq!(shown(a), (120, 130, 140));
    let mut b = Acc::from(-320);
    b.update(100);
    assert_eq!(shown(b), (-32, -11, 10));
    let mut c = Acc::from(10);
    c.update(10);
    c.update(20);
    assert_eq!(shown(c), (1, 1, 2));
    let mut d = Acc::from(10);
    d.update(20);
    d.update(20);
    assert_eq!(shown(d), (1, 2, 2));
}

#[test]
fn a_mean_half_way_goes_to_the_even_tenth() {
    let mut a = Acc::from(20);
    a.update(30);
    assert_eq!(shown(a), (2, 2, 3));
    let mut b = Acc::from(30);
    b.update(40);
    assert_eq!(shown(b), (3, 4, 4));
    let mut c = Acc::from(-20);
    c.update(-30);
    assert_eq!(shown(c), (-3, -2, -2));
}

#[test]
fn the_mean_shown_lies_between_the_extremes_shown() {
    let mut v: i64 = 3;
    let mut a = Acc::from(0);
    for _ in 0..5_000 {
        v = (v * 48_271 + 11) % 19_981;
        a.update((v - 9_990) as i32);
        let f = Final::from(a);
        assert!(f.min <= f.avg && f.avg <= f.max);
    }
}

#[test]
fn the_sum_is_not_cut_short() {
    let mut a = Acc::from(i32::MAX);
    for _ in 0..9 {
        a.update(i32::MAX);
    }
    assert_eq!(shown(a), (214_748_365, 214_748_365, 214_748_365));
    let mut b = Acc::from(i32::MIN);
    b.update(i32::MAX);
    assert_eq!(shown(b), (-214_748_365, 0, 214_748_365));
    assert_eq!(text(Final::from(b)), "-21474836.5/0.0/21474836.5");
}

#[test]
fn figures_have_one_digit_after_the_point() {
    assert_eq!(text(Final { min: 0, avg: 0, max: 0 }), "0.0/0.0/0.0");
    assert_eq!(text(Final { min: -1, avg: 5, max: 9 }), "-0.1/0.5/0.9");
    assert_eq!(text(Final { min: -10, avg: 10, max: 99 }), "-1.0/1.0/9.9");
    assert_eq!(text(Final { min: -999, avg: 100, max: 999 }), "-99.9/10.0/99.9");
    assert_eq!(text(Final { min: -1000, avg: 1005, max: 123_456 }), "-100.0/100.5/12345.6");
    assert_eq!(
        text(Final { min: i32::MIN, avg: 0, max: i32::MAX }),
        "-214748364.8/0.0/214748364.7"
    );
}

#[test]
fn a_value_that_rounds_to_zero_has_no_sign() {
    assert_eq!(text(Final::from(Acc::from(-4))), "0.0/0.0/0.0");
    let mut a = Acc::from(-10);
    a.update(0);
    a.update(0);
    assert_eq!(text(Final::from(a)), "-0.1/0.0/0.0");
}

#[test]
fn the_summary_of_no_station() {
    let rows: Vec<(&[u8], Final)> = Vec::new();
    assert_eq!(render(&rows), b"{}");
    assert_eq!(report(&Stats::new()), b"{}");
}

#[test]
fn the_summary_of_one_station() {
    let rows: Vec<(&[u8], Final)> = vec![(b"Oslo", Final { min: -15, avg: 40, max: 200 })];
    assert_eq!(String::from_utf8(render(&rows)).unwrap(), "{Oslo=-1.5/4.0/20.0}");
}

#[test]
fn the_summary_keeps_the_order_given() {
    let rows: Vec<(&[u8], Final)> = vec![
        (b"b", Final { min: 1, avg: 2, max: 3 }),
        (b"a", Final { min: -3, avg: -2, max: -1 }),
        (b"", Final { min: 0, avg: 0, max: 0 }),
    ];
    assert_eq!(
        String::from_utf8(render(&rows)).unwrap(),
        "{b=0.1/0.2/0.3, a=-0.3/-0.2/-0.1, =0.0/0.0/0.0}"
    );
}

#[test]
fn names_are_written_byte_for_byte() {
    let rows: Vec<(&[u8], Final)> = vec![(&[0xff, b'=', b','], Final { min: 1, avg: 1, max: 1 })];
    assert_eq!(render(&rows), b"{\xff=,=0.1/0.1/0.1}");
}

#[test]
fn results_come_in_ascending_byte_order() {
    let stats = folded(&[b"b;1.0", b"a;2.0", b"C;3.0", b"ab;4.0", b"a;4.0", b"\xc3\x85;5.0"]);
    let rows = results(&stats);
    let names: Vec<&[u8]> = rows.iter().map(|r| r.0).collect();
    assert_eq!(names, vec![&b"C"[..], b"a", b"ab", b"b", b"\xc3\x85"]);
    assert_eq!(rows[1].1, Final { min: 20, avg: 30, max: 40 });
    assert_eq!(rows[0].1, Final { min: 30, avg: 30, max: 30 });
}

#[test]
fn reporting_twice_gives_the_same_text() {
    let stats = folded(&[b"b;1.0", b"a;2.0", b"b;-3.5", b"c;0.0"]);
    let first = report(&stats);
    let second = report(&stats);
    assert_eq!(first, second);
    assert_eq!(String::from_utf8(first).unwrap(), "{a=2.0/2.0/2.0, b=-3.5/-1.2/1.0, c=0.0/0.0/0.0}");
}

#[test]
fn every_plain_reading_is_shown_as_it_was_read() {
    for tenths in -999..=999 {
        let tenths: i32 = tenths;
        let reading = format!(
            "{}{}.{}",
            if tenths < 0 { "-" } else { "" },
            tenths.abs() / 10,
            tenths.abs() % 10
        );
        let line = format!("Name;{}", reading);
        let stats = folded(&[line.as_bytes()]);
        assert_eq!(
            String::from_utf8(report(&stats)).unwrap(),
            format!("{{Name={}/{}/{}}}", reading, reading, reading)
        );
    }
}

#[test]
fn readings_not_written_plainly_are_shown_plainly() {
    let stats = folded(&[b"a;-0.0", b"b;05.3", b"c;-00.7", b"d;00.0"]);
    assert_eq!(
        String::from_utf8(report(&stats)).unwrap(),
        "{a=0.0/0.0/0.0, b=5.3/5.3/5.3, c=-0.7/-0.7/-0.7, d=0.0/0.0/0.0}"
    );
}
