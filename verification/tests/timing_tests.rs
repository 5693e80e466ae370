use bms::chart::{BmsChart, MaxRandom};
use bms::rat::Rat;
use bms::timing::{BmsTimeQuarterNotes, BmsTimeSeconds, BmsTiming};

fn compiled(src: &str) -> BmsChart {
    BmsChart::compile(src, 48, &MaxRandom).unwrap()
}

fn rat_is(r: Rat, n: i64) -> bool {
    r.num == n * r.den
}

#[test]
fn initial_tempo_comes_from_the_bpm_header() {
    let chart = compiled("#BPM 120\n#00011:01");
    let timing = BmsTiming::generate(&chart).unwrap();
    assert_eq!(timing.bpm_changes.len(), 1);
    assert!(rat_is(timing.bpm_changes[0].0 .0, 0));
    assert!(rat_is(timing.bpm_changes[0].1, 120));
}

#[test]
fn fractional_bpm_header_is_exact() {
    let chart = compiled("#BPM 120.5");
    let timing = BmsTiming::generate(&chart).unwrap();
    let v = timing.bpm_changes[0].1;
    // 120.5 == 241/2
    assert_eq!(v.num * 2, 241 * v.den);
}

#[test]
fn missing_initial_tempo_fails_the_build() {
    let chart = compiled("#00011:01");
    assert!(BmsTiming::generate(&chart).is_none());
}

#[test]
fn unparsable_bpm_header_fails_the_build() {
    let chart = compiled("#BPM fast");
    assert!(BmsTiming::generate(&chart).is_none());
}

#[test]
fn inline_tempo_channel_reads_hexadecimal() {
    // 0x78 = 120; the inline entry sits at position 0, so no header is needed
    let chart = compiled("#00003:78");
    let timing = BmsTiming::generate(&chart).unwrap();
    assert_eq!(timing.bpm_changes.len(), 1);
    assert!(rat_is(timing.bpm_changes[0].0 .0, 0));
    assert!(rat_is(timing.bpm_changes[0].1, 120));
}

#[test]
fn bpm_group_channel_looks_up_the_id() {
    // channel 08 looks up BPM01; the entry lands at measure 1 (4 quarter notes)
    let chart = compiled("#BPM 120\n#BPM01 60.5\n#00108:01");
    let timing = BmsTiming::generate(&chart).unwrap();
    assert_eq!(timing.bpm_changes.len(), 2);
    assert!(rat_is(timing.bpm_changes[0].0 .0, 0));
    assert!(rat_is(timing.bpm_changes[1].0 .0, 4));
    let v = timing.bpm_changes[1].1;
    assert_eq!(v.num * 2, 121 * v.den);
}

#[test]
fn unknown_bpm_id_is_silently_skipped() {
    let chart = compiled("#BPM 120\n#00108:02");
    let timing = BmsTiming::generate(&chart).unwrap();
    assert_eq!(timing.bpm_changes.len(), 1);
}

#[test]
fn unparsable_group_value_fails_the_build() {
    let chart = compiled("#BPM 120\n#BPM01 abc");
    assert!(BmsTiming::generate(&chart).is_none());
}

#[test]
fn group_names_are_read_case_insensitively() {
    let chart = compiled("#BPM 120\n#bPm01 60\n#00108:01");
    let timing = BmsTiming::generate(&chart).unwrap();
    assert_eq!(timing.bpm_changes.len(), 2);
    assert!(rat_is(timing.bpm_changes[1].1, 60));
}

#[test]
fn stop_duration_counts_in_192nds_of_a_measure() {
    let chart = compiled("#BPM 120\n#STOP01 96\n#00009:01");
    let timing = BmsTiming::generate(&chart).unwrap();
    assert_eq!(timing.stops.len(), 1);
    assert!(rat_is(timing.stops[0].0 .0, 0));
    // 96 * 4 / 192 = 2 quarter notes
    assert!(rat_is(timing.stops[0].1 .0, 2));
}

#[test]
fn fractional_stop_value_fails_the_build() {
    let chart = compiled("#BPM 120\n#STOP01 4.5");
    assert!(BmsTiming::generate(&chart).is_none());
}

#[test]
fn scroll_changes_default_to_one_at_the_start() {
    let chart = compiled("#BPM 120");
    let timing = BmsTiming::generate(&chart).unwrap();
    assert_eq!(timing.scroll_changes.len(), 1);
    assert!(rat_is(timing.scroll_changes[0].0 .0, 0));
    assert!(rat_is(timing.scroll_changes[0].1, 1));
}

#[test]
fn scroll_and_speed_channels_look_up_their_groups() {
    // SC and SP channels; entries at measure 0
    let chart = compiled("#BPM 120\n#SCROLL01 2\n#SPEED01 3\n#000SC:01\n#000SP:01");
    let timing = BmsTiming::generate(&chart).unwrap();
    assert_eq!(timing.scroll_changes.len(), 1);
    assert!(rat_is(timing.scroll_changes[0].1, 2));
    assert_eq!(timing.speed_changes.len(), 1);
    assert!(rat_is(timing.speed_changes[0].1, 3));
}

#[test]
fn time_type_arithmetic_is_exact() {
    let a = BmsTimeQuarterNotes::new(1, 2);
    let b = BmsTimeQuarterNotes::new(1, 3);
    let s = a.checked_add(b).unwrap();
    // 1/2 + 1/3 = 5/6
    assert_eq!(s.0.num * 6, 5 * s.0.den);
    let d = a.checked_sub(b).unwrap();
    assert_eq!(d.0.num * 6, 1 * d.0.den);
    let x = BmsTimeSeconds::new(3, 4);
    let y = BmsTimeSeconds::new(1, 4);
    let t = x.checked_add(y).unwrap();
    assert_eq!(t.0.num, t.0.den);
}

#[test]
fn time_type_products_and_ratios_are_exact() {
    let a = BmsTimeQuarterNotes::new(3, 2);
    let b = BmsTimeQuarterNotes::new(4, 3);
    let p = a.checked_mul(b).unwrap();
    // 3/2 * 4/3 = 2, in lowest terms
    assert_eq!((p.0.num, p.0.den), (2, 1));
    let r = a.checked_div(b).unwrap();
    // (3/2) / (4/3) = 9/8, a plain ratio
    assert_eq!((r.num, r.den), (9, 8));
    let x = BmsTimeSeconds::new(1, 2);
    let q = x.checked_mul(x).unwrap();
    assert_eq!((q.0.num, q.0.den), (1, 4));
    let z = x.checked_div(BmsTimeSeconds::new(1, 4)).unwrap();
    assert_eq!((z.num, z.den), (2, 1));
}

#[test]
fn checked_ops_reduce_to_lowest_terms() {
    let half = Rat { num: 2, den: 4 };
    let s = half.checked_add(half).unwrap();
    assert_eq!((s.num, s.den), (1, 1));
    let m = (Rat { num: 6, den: 4 }).checked_mul(Rat { num: 2, den: 3 }).unwrap();
    assert_eq!((m.num, m.den), (1, 1));
    let d = (Rat { num: 5, den: 6 }).checked_sub(Rat { num: 1, den: 6 }).unwrap();
    // 24/36 reduces to 2/3
    assert_eq!((d.num, d.den), (2, 3));
}

#[test]
fn rat_ops_report_overflow() {
    let big = Rat { num: i64::MAX, den: 1 };
    assert!(big.checked_add(Rat { num: 1, den: 1 }).is_none());
    assert!(big.checked_mul(Rat { num: 2, den: 1 }).is_none());
    assert!(Rat { num: 1, den: 1 }.checked_div(Rat { num: 0, den: 1 }).is_none());
    let half = Rat { num: 1, den: 2 };
    let third = Rat { num: 1, den: 3 };
    let p = half.checked_mul(third).unwrap();
    assert_eq!(p.num, 1);
    assert_eq!(p.den, 6);
    let q = half.checked_div(third).unwrap();
    // (1/2) / (1/3) = 3/2
    assert_eq!(q.num * 2, 3 * q.den);
}
