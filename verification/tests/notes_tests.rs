use bms::chart::{BmsChart, MaxRandom};
use bms::notes::{BmsNoteType, BmsNotes};
use bms::rat::Rat;
use bms::timing::BmsTiming;

fn compiled(src: &str) -> BmsChart {
    BmsChart::compile(src, 48, &MaxRandom).unwrap()
}

/// `r` equals the integer `n` as a rational.
fn rat_is(r: Rat, n: i64) -> bool {
    r.num == n * r.den
}

#[test]
fn visible_objects_become_normal_notes_with_lanes() {
    // channels 11 and 21 (base 36): player-one lane 0, player-two lane 35
    let chart = compiled("#00011:05\n#00021:06");
    let notes = BmsNotes::generate(&chart);
    assert_eq!(notes.notes.len(), 2);
    assert_eq!(notes.notes[0].lane, 0);
    assert_eq!(notes.notes[0].note_type, BmsNoteType::Normal { keysound: 5 });
    assert_eq!(notes.notes[1].lane, 35);
    assert_eq!(notes.notes[1].note_type, BmsNoteType::Normal { keysound: 6 });
    assert!(notes.hit_times.is_none());
}

#[test]
fn bgm_objects_become_bgm_notes_without_a_lane() {
    let chart = compiled("#00001:0102");
    let notes = BmsNotes::generate(&chart);
    assert_eq!(notes.notes.len(), 2);
    assert_eq!(notes.notes[0].lane, 0);
    assert_eq!(notes.notes[0].note_type, BmsNoteType::BGM { keysound: 1 });
    assert_eq!(notes.notes[1].note_type, BmsNoteType::BGM { keysound: 2 });
}

#[test]
fn invisible_objects_become_hidden_notes() {
    // channel 31 (base 36) = 109: player-one invisible lane 0
    let chart = compiled("#00031:07");
    let notes = BmsNotes::generate(&chart);
    assert_eq!(notes.notes.len(), 1);
    assert_eq!(notes.notes[0].lane, 0);
    assert_eq!(notes.notes[0].note_type, BmsNoteType::Hidden { keysound: 7 });
}

#[test]
fn landmine_damage_halves_the_value_truncating() {
    // channel D1 (base 36) = 469: player-one landmine lane 0
    let chart = compiled("#000D1:05");
    let notes = BmsNotes::generate(&chart);
    assert_eq!(notes.notes.len(), 1);
    assert_eq!(notes.notes[0].note_type, BmsNoteType::Mine { damage: 2 });
}

#[test]
fn unrecognized_channels_are_silently_excluded() {
    // channel 0F (base 36) = 15 carries no notes
    let chart = compiled("#0000F:05");
    let notes = BmsNotes::generate(&chart);
    assert!(notes.notes.is_empty());
}

#[test]
fn lnobj_marker_promotes_the_previous_note_to_long() {
    // marker 06; value 5 at index 0 of 4 pairs, the marker at index 2:
    // positions 0 and 2 quarter notes of the same visible channel
    let chart = compiled("#LNOBJ 06\n#00011:05000600");
    let notes = BmsNotes::generate(&chart);
    // the marker object itself is never emitted
    assert_eq!(notes.notes.len(), 1);
    assert!(rat_is(notes.notes[0].time.0, 0));
    match notes.notes[0].note_type {
        BmsNoteType::Long { keysound, end_time } => {
            assert_eq!(keysound, 5);
            assert!(rat_is(end_time.0, 2));
        },
        ref other => panic!("expected a long note, got {:?}", other),
    }
}

#[test]
fn lnobj_note_without_a_marker_stays_normal() {
    let chart = compiled("#LNOBJ 06\n#00011:05");
    let notes = BmsNotes::generate(&chart);
    assert_eq!(notes.notes.len(), 1);
    assert_eq!(notes.notes[0].note_type, BmsNoteType::Normal { keysound: 5 });
}

#[test]
fn malformed_lnobj_is_ignored() {
    let chart = compiled("#LNOBJ !!\n#00011:05");
    let notes = BmsNotes::generate(&chart);
    assert_eq!(notes.notes.len(), 1);
    assert_eq!(notes.notes[0].note_type, BmsNoteType::Normal { keysound: 5 });
}

#[test]
fn dedicated_long_channel_pairs_with_the_next_same_value() {
    // channel 51 (base 36) = 181: objects at indices 0 and 2 of 4 pairs
    let chart = compiled("#00051:05000500");
    let notes = BmsNotes::generate(&chart);
    // the first object pairs with the second; the second finds no
    // terminator and is dropped
    assert_eq!(notes.notes.len(), 1);
    assert!(rat_is(notes.notes[0].time.0, 0));
    match notes.notes[0].note_type {
        BmsNoteType::Long { keysound, end_time } => {
            assert_eq!(keysound, 5);
            assert!(rat_is(end_time.0, 2));
        },
        ref other => panic!("expected a long note, got {:?}", other),
    }
}

#[test]
fn unterminated_dedicated_long_note_emits_nothing() {
    let chart = compiled("#00051:05");
    let notes = BmsNotes::generate(&chart);
    assert!(notes.notes.is_empty());
}

#[test]
fn tempo_sweep_stamps_notes_with_exact_seconds() {
    // tempo 120 from the start, tempo 60 at position 4 (measure 1);
    // notes at positions 2 and 6 quarter notes
    let src = "#BPM 120\n#00103:3C\n#00011:0001\n#00111:0001";
    let chart = BmsChart::compile(src, 48, &MaxRandom).unwrap();
    let timing = BmsTiming::generate(&chart).unwrap();
    let notes = BmsNotes::generate_with_seconds(&chart, &timing);
    assert_eq!(notes.notes.len(), 2);
    let hits = notes.hit_times.as_ref().unwrap();
    // 2 quarter notes at 120 tempo: 2 * 0.5 = 1 second
    assert!(rat_is(hits[0].0 .0, 1));
    assert!(hits[0].1.is_none());
    // 4 quarter notes at 120, then 2 at 60: 2 + 2 = 4 seconds
    assert!(rat_is(hits[1].0 .0, 4));
}

#[test]
fn elapsed_seconds_accumulate_across_tempo_changes() {
    // 120 from the start, 60 at position 4, 30 (0x1E) at position 8,
    // note at position 10: 4*0.5 + 4*1 + 2*2 = 10 seconds
    let src = "#BPM 120\n#00103:3C\n#00203:1E\n#00211:0001";
    let chart = BmsChart::compile(src, 48, &MaxRandom).unwrap();
    let timing = BmsTiming::generate(&chart).unwrap();
    let notes = BmsNotes::generate_with_seconds(&chart, &timing);
    let hits = notes.hit_times.as_ref().unwrap();
    assert!(rat_is(hits[0].0 .0, 10));
}

#[test]
fn note_exactly_at_a_tempo_change_uses_the_old_tempo() {
    // tempo change to 60 at position 4; a note exactly there
    let src = "#BPM 120\n#00103:3C\n#00111:01";
    let chart = BmsChart::compile(src, 48, &MaxRandom).unwrap();
    let timing = BmsTiming::generate(&chart).unwrap();
    let notes = BmsNotes::generate_with_seconds(&chart, &timing);
    let hits = notes.hit_times.as_ref().unwrap();
    // 4 quarter notes at 120 tempo: 2 seconds
    assert!(rat_is(hits[0].0 .0, 2));
}

#[test]
fn long_note_release_seconds_are_recorded() {
    let src = "#BPM 60\n#00051:05000500";
    let chart = BmsChart::compile(src, 48, &MaxRandom).unwrap();
    let timing = BmsTiming::generate(&chart).unwrap();
    let notes = BmsNotes::generate_with_seconds(&chart, &timing);
    assert_eq!(notes.notes.len(), 1);
    let hits = notes.hit_times.as_ref().unwrap();
    assert!(rat_is(hits[0].0 .0, 0));
    assert!(rat_is(hits[0].1.unwrap().0, 2));
}

#[test]
fn stops_delay_everything_after_them() {
    // a stop of 48/192 of a measure = 1 quarter note at position 2,
    // a note at position 4: 4 quarter notes of travel plus 1 paused
    let src = "#BPM 120\n#STOP01 48\n#00009:0001\n#00111:01";
    let chart = BmsChart::compile(src, 48, &MaxRandom).unwrap();
    let timing = BmsTiming::generate(&chart).unwrap();
    let notes = BmsNotes::generate_with_seconds(&chart, &timing);
    let hits = notes.hit_times.as_ref().unwrap();
    // 4 quarter notes at 0.5 s each plus a 1-quarter-note pause: 2.5 s
    let h = hits[0].0 .0;
    assert_eq!(h.num * 2, 5 * h.den);
}

#[test]
fn note_exactly_at_a_stop_is_not_delayed_by_it() {
    let src = "#BPM 120\n#STOP01 48\n#00009:0001\n#00011:0001";
    let chart = BmsChart::compile(src, 48, &MaxRandom).unwrap();
    let timing = BmsTiming::generate(&chart).unwrap();
    let notes = BmsNotes::generate_with_seconds(&chart, &timing);
    let hits = notes.hit_times.as_ref().unwrap();
    // the note and the stop share position 2: the hit comes before the pause
    assert!(rat_is(hits[0].0 .0, 1));
}

#[test]
fn long_timelines_with_many_tempo_changes_still_produce_seconds() {
    // eight tempo segments alternating 120 and 60, a two-quarter-note
    // stop at each of positions 8 and 20, and a note at position 32:
    // 4*(2 + 4) seconds of travel plus 1 + 2 seconds paused = 27
    let src = "#BPM 120\n#STOP01 96\n#00103:3C\n#00203:78\n#00303:3C\n#00403:78\n#00503:3C\n#00603:78\n#00703:3C\n#00209:01\n#00509:01\n#00811:01";
    let chart = BmsChart::compile(src, 48, &MaxRandom).unwrap();
    let timing = BmsTiming::generate(&chart).unwrap();
    let notes = BmsNotes::generate_with_seconds(&chart, &timing);
    assert_eq!(notes.notes.len(), 1);
    let hits = notes.hit_times.as_ref().unwrap();
    assert!(rat_is(hits[0].0 .0, 27));
}

#[test]
fn find_seconds_on_empty_notes_changes_nothing() {
    let chart = compiled("#BPM 120");
    let timing = BmsTiming::generate(&chart).unwrap();
    let mut notes = BmsNotes::generate(&chart);
    assert!(notes.find_seconds(&timing));
    assert!(notes.hit_times.is_none());
}

#[test]
fn zero_tempo_fails_the_sweep() {
    let src = "#BPM 0\n#00011:01";
    let chart = BmsChart::compile(src, 48, &MaxRandom).unwrap();
    let timing = BmsTiming::generate(&chart).unwrap();
    let mut notes = BmsNotes::generate(&chart);
    assert!(!notes.find_seconds(&timing));
    assert!(notes.hit_times.is_none());
}
