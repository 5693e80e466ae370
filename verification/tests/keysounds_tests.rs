use bms::chart::{BmsChart, MaxRandom};
use bms::keysounds::generate_keysounds;

fn compiled(src: &str) -> BmsChart {
    BmsChart::compile(src, 48, &MaxRandom).unwrap()
}

#[test]
fn wav_headers_build_the_keysound_table() {
    let chart = compiled("#WAV01 kick.wav\n#WAV0Z snare.wav\n#TITLE x");
    let ks = generate_keysounds(&chart);
    assert_eq!(ks.len(), 2);
    assert_eq!(ks[0], (1, "kick.wav".to_string()));
    // 0Z in base 36 is 35
    assert_eq!(ks[1], (35, "snare.wav".to_string()));
}

#[test]
fn wav_names_are_read_case_insensitively() {
    let chart = compiled("#wav0a low.wav");
    let ks = generate_keysounds(&chart);
    assert_eq!(ks.len(), 1);
    // 0A in base 36 is 10
    assert_eq!(ks[0], (10, "low.wav".to_string()));
}

#[test]
fn non_wav_headers_and_bad_ids_are_skipped() {
    // WAVING is six characters, WAV_1 has an id outside base 36, and
    // BPM does not start with WAV
    let chart = compiled("#WAVING 1\n#WAV_1 x.wav\n#BPM 120");
    let ks = generate_keysounds(&chart);
    assert!(ks.is_empty());
}

#[test]
fn keysound_table_of_an_empty_chart_is_empty() {
    let chart = compiled("");
    assert!(generate_keysounds(&chart).is_empty());
}
