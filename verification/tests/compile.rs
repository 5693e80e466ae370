use bms::chart::{BmsChart, BmsObject, ConstRandom, MaxRandom, ParseError};

fn same_object(a: &BmsObject, b: &BmsObject) -> bool {
    a.channel == b.channel && a.tick == b.tick && a.value == b.value
}

#[test]
fn empty_source_compiles_to_empty_chart() {
    let chart = BmsChart::compile("", 48, &MaxRandom).unwrap();
    assert_eq!(chart.resolution, 48);
    assert!(chart.headers.is_empty());
    assert!(chart.objects.is_empty());
    assert!(chart.barlines.is_empty());
}

#[test]
fn header_lines_store_name_and_value() {
    let chart = BmsChart::compile("#TITLE my song\n#ARTIST someone", 48, &MaxRandom).unwrap();
    assert_eq!(chart.headers.len(), 2);
    assert_eq!(chart.headers[0].0, "TITLE");
    assert_eq!(chart.headers[0].1, "my song");
    assert_eq!(chart.headers[1].0, "ARTIST");
    assert_eq!(chart.headers[1].1, "someone");
}

#[test]
fn header_without_value_stores_empty_value() {
    let chart = BmsChart::compile("#FLAG", 48, &MaxRandom).unwrap();
    assert_eq!(chart.headers.len(), 1);
    assert_eq!(chart.headers[0].0, "FLAG");
    assert_eq!(chart.headers[0].1, "");
}

#[test]
fn header_names_are_case_insensitive_last_value_wins() {
    let chart = BmsChart::compile("#Title one\n#TITLE two", 48, &MaxRandom).unwrap();
    assert_eq!(chart.headers.len(), 1);
    // the first spelling of the key is kept, the value is replaced
    assert_eq!(chart.headers[0].0, "Title");
    assert_eq!(chart.headers[0].1, "two");
}

#[test]
fn grid_line_places_objects_on_the_tick_grid() {
    // measure 0, channel 11 (base 36), four pairs: indices 0 and 2 hold values
    let chart = BmsChart::compile("#00011:01000200", 48, &MaxRandom).unwrap();
    assert_eq!(chart.objects.len(), 2);
    assert!(same_object(&chart.objects[0], &BmsObject { channel: 37, tick: 0, value: 1 }));
    // index 2 of 4 pairs: half of a 192-tick measure
    assert!(same_object(&chart.objects[1], &BmsObject { channel: 37, tick: 96, value: 2 }));
    assert_eq!(chart.barlines, vec![0]);
}

#[test]
fn ext_prefixed_grid_line_is_read_like_a_plain_one() {
    let a = BmsChart::compile("#EXT #00011:01", 48, &MaxRandom).unwrap();
    let b = BmsChart::compile("#00011:01", 48, &MaxRandom).unwrap();
    assert_eq!(a.objects.len(), 1);
    assert!(same_object(&a.objects[0], &b.objects[0]));
}

#[test]
fn zero_pairs_are_dropped() {
    let chart = BmsChart::compile("#00011:0000", 48, &MaxRandom).unwrap();
    assert!(chart.objects.is_empty());
    assert!(chart.barlines.is_empty());
}

#[test]
fn time_signature_stretches_the_measure() {
    // one measure at multiplier 2.0 and resolution 48 spans
    // round(2.0 * 4 * 48) = 384 ticks
    let chart = BmsChart::compile("#00002:2.0\n#00111:01", 48, &MaxRandom).unwrap();
    assert_eq!(chart.barlines, vec![0, 384]);
    assert_eq!(chart.objects.len(), 1);
    assert_eq!(chart.objects[0].tick, 384);
}

#[test]
fn fractional_time_signature_rounds_the_measure_width() {
    let chart = BmsChart::compile("#00002:0.5\n#00111:01", 48, &MaxRandom).unwrap();
    assert_eq!(chart.barlines, vec![0, 96]);
    assert_eq!(chart.objects[0].tick, 96);
}

#[test]
fn objects_are_sorted_and_deduplicated() {
    // same slot (channel 11, tick 0) written twice with different
    // values: one object survives, the smaller value first in order
    let chart = BmsChart::compile("#00011:03\n#00011:02", 48, &MaxRandom).unwrap();
    assert_eq!(chart.objects.len(), 1);
    assert_eq!(chart.objects[0].value, 2);
}

#[test]
fn bgm_objects_at_the_same_position_are_all_kept() {
    let chart = BmsChart::compile("#00001:01\n#00001:02", 48, &MaxRandom).unwrap();
    assert_eq!(chart.objects.len(), 2);
    assert!(same_object(&chart.objects[0], &BmsObject { channel: 1, tick: 0, value: 1 }));
    assert!(same_object(&chart.objects[1], &BmsObject { channel: 1, tick: 0, value: 2 }));
}

#[test]
fn update_objects_sorts_and_deduplicates() {
    let mut chart = BmsChart {
        resolution: 48,
        headers: vec![],
        objects: vec![
            BmsObject { channel: 40, tick: 96, value: 7 },
            BmsObject { channel: 37, tick: 0, value: 3 },
            BmsObject { channel: 40, tick: 96, value: 9 },
        ],
        barlines: vec![],
    };
    chart.update_objects();
    assert_eq!(chart.objects.len(), 2);
    assert!(same_object(&chart.objects[0], &BmsObject { channel: 37, tick: 0, value: 3 }));
    assert!(same_object(&chart.objects[1], &BmsObject { channel: 40, tick: 96, value: 7 }));
}

#[test]
fn update_objects_is_idempotent() {
    let mut chart = BmsChart {
        resolution: 48,
        headers: vec![],
        objects: vec![
            BmsObject { channel: 40, tick: 96, value: 7 },
            BmsObject { channel: 1, tick: 0, value: 3 },
            BmsObject { channel: 1, tick: 0, value: 4 },
            BmsObject { channel: 40, tick: 96, value: 7 },
        ],
        barlines: vec![],
    };
    chart.update_objects();
    let once: Vec<_> = chart.objects.clone();
    chart.update_objects();
    assert_eq!(once.len(), chart.objects.len());
    for (a, b) in once.iter().zip(chart.objects.iter()) {
        assert!(same_object(a, b));
    }
}

#[test]
fn compilation_is_deterministic() {
    let src = "#TITLE x\n#RANDOM 4\n#IF 2\n#00011:0105\n#ENDIF\n#ENDRANDOM\n#00002:1.5\n#00101:0203";
    let a = BmsChart::compile(src, 96, &ConstRandom { value: 2 }).unwrap();
    let b = BmsChart::compile(src, 96, &ConstRandom { value: 2 }).unwrap();
    assert_eq!(a.resolution, b.resolution);
    assert_eq!(a.headers, b.headers);
    assert_eq!(a.barlines, b.barlines);
    assert_eq!(a.objects.len(), b.objects.len());
    for (x, y) in a.objects.iter().zip(b.objects.iter()) {
        assert!(same_object(x, y));
    }
}

#[test]
fn conditional_compilation_keeps_the_taken_branch_only() {
    let src = "#RANDOM 2\n#IF 1\n#00011:01\n#ENDIF\n#IF 2\n#00012:01\n#ENDIF\n#ENDRANDOM";
    let chart = BmsChart::compile(src, 48, &ConstRandom { value: 1 }).unwrap();
    // channel 11 (base 36) is 37; channel 12 is 38
    assert!(chart.objects.iter().any(|o| o.channel == 37));
    assert!(!chart.objects.iter().any(|o| o.channel == 38));
}

#[test]
fn skipped_branches_still_ignore_headers() {
    let src = "#RANDOM 2\n#IF 1\n#TITLE taken\n#ENDIF\n#IF 2\n#TITLE skipped\n#ENDIF\n#ENDRANDOM";
    let chart = BmsChart::compile(src, 48, &ConstRandom { value: 1 }).unwrap();
    assert_eq!(chart.headers.len(), 1);
    assert_eq!(chart.headers[0].1, "taken");
}

#[test]
fn unrecognized_lines_are_ignored() {
    let chart = BmsChart::compile("plain text\n#00102: spaced\n;comment", 48, &MaxRandom).unwrap();
    assert!(chart.headers.is_empty());
    assert!(chart.objects.is_empty());
}

#[test]
fn oversized_random_count_is_rejected() {
    let r = BmsChart::compile("#RANDOM 99999999999", 48, &MaxRandom);
    assert_eq!(r.unwrap_err(), ParseError::BadRandomValue);
}

#[test]
fn oversized_if_value_is_rejected() {
    let r = BmsChart::compile("#RANDOM 1\n#IF 99999999999", 48, &MaxRandom);
    assert_eq!(r.unwrap_err(), ParseError::BadIfValue);
}

#[test]
fn if_without_random_is_rejected() {
    let r = BmsChart::compile("#IF 1", 48, &MaxRandom);
    assert_eq!(r.unwrap_err(), ParseError::IfWithoutRandom);
}

#[test]
fn if_without_random_is_rejected_even_inside_a_skipped_branch() {
    let r = BmsChart::compile("#RANDOM 2\n#IF 2\n#ENDIF\n#ENDRANDOM\n#IF 1", 48, &ConstRandom {
        value: 1,
    });
    assert_eq!(r.unwrap_err(), ParseError::IfWithoutRandom);
}

#[test]
fn malformed_time_signature_is_rejected() {
    let r = BmsChart::compile("#00002:abc", 48, &MaxRandom);
    assert_eq!(r.unwrap_err(), ParseError::BadTimeSignature);
}

#[test]
fn exponent_time_signature_is_rejected() {
    let r = BmsChart::compile("#00002:1e3", 48, &MaxRandom);
    assert_eq!(r.unwrap_err(), ParseError::BadTimeSignature);
}

#[test]
fn non_alphanumeric_channel_is_rejected() {
    let r = BmsChart::compile("#001!!:00", 48, &MaxRandom);
    assert_eq!(r.unwrap_err(), ParseError::BadChannel);
}

#[test]
fn non_hex_pair_on_the_tempo_channel_is_rejected() {
    let r = BmsChart::compile("#00103:GG", 48, &MaxRandom);
    assert_eq!(r.unwrap_err(), ParseError::BadObjectValue);
}

#[test]
fn astronomic_time_signature_overflows_the_tick_range() {
    let r = BmsChart::compile("#00002:999999999999999999\n#00111:01", 48, &MaxRandom);
    assert_eq!(r.unwrap_err(), ParseError::TickOverflow);
}

#[test]
fn skipped_grid_lines_cannot_fail_compilation() {
    // the malformed pair sits in a skipped branch and is never decoded
    let src = "#RANDOM 2\n#IF 2\n#00103:GG\n#ENDIF\n#ENDRANDOM";
    assert!(BmsChart::compile(src, 48, &ConstRandom { value: 1 }).is_ok());
}

#[test]
fn crlf_line_endings_are_accepted() {
    let chart = BmsChart::compile("#TITLE a\r\n#00011:01\r\n", 48, &MaxRandom).unwrap();
    assert_eq!(chart.headers.len(), 1);
    assert_eq!(chart.objects.len(), 1);
}

#[test]
fn empty_measures_still_consume_their_default_width() {
    // the only object sits in measure 2; measures 0 and 1 keep their
    // default four quarter notes each
    let chart = BmsChart::compile("#00211:01", 48, &MaxRandom).unwrap();
    assert_eq!(chart.barlines, vec![0, 192, 384]);
    assert_eq!(chart.objects[0].tick, 384);
}

#[test]
fn nested_random_blocks_use_their_own_draw() {
    let src = "#RANDOM 2\n#RANDOM 2\n#IF 2\n#00011:01\n#ENDIF\n#ENDRANDOM\n#IF 2\n#00012:01\n#ENDIF\n#ENDRANDOM";
    let both = BmsChart::compile(src, 48, &MaxRandom).unwrap();
    assert!(both.objects.iter().any(|o| o.channel == 37));
    assert!(both.objects.iter().any(|o| o.channel == 38));
    let neither = BmsChart::compile(src, 48, &ConstRandom { value: 1 }).unwrap();
    assert!(neither.objects.is_empty());
}

#[test]
fn header_with_only_trailing_whitespace_is_ignored() {
    let chart = BmsChart::compile("#TITLE  \n#ARTIST x", 48, &MaxRandom).unwrap();
    assert_eq!(chart.headers.len(), 1);
    assert_eq!(chart.headers[0].0, "ARTIST");
}

#[test]
fn tabs_separate_header_names_from_values() {
    let chart = BmsChart::compile("#TITLE\tsong", 48, &MaxRandom).unwrap();
    assert_eq!(chart.headers[0].1, "song");
}

#[test]
fn object_equality_ignores_the_value() {
    let a = BmsObject { channel: 37, tick: 5, value: 1 };
    let b = BmsObject { channel: 37, tick: 5, value: 9 };
    let c = BmsObject { channel: 38, tick: 5, value: 1 };
    assert_eq!(a, b);
    assert_ne!(a, c);
}

#[test]
fn object_order_is_by_tick_and_unordered_across_channels() {
    let a = BmsObject { channel: 37, tick: 5, value: 1 };
    let b = BmsObject { channel: 38, tick: 9, value: 1 };
    let c = BmsObject { channel: 38, tick: 5, value: 1 };
    assert!(a < b);
    assert!(a.partial_cmp(&c).is_none());
    assert_eq!(a.partial_cmp(&a), Some(std::cmp::Ordering::Equal));
}
