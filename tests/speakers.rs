use steno::speaker::{similarity_of, RealtimeSpeakerDiarization, VoiceFeatures};

fn voice(f0: u32, formants: [u32; 3], centroid: u32, cep: i32) -> VoiceFeatures {
    VoiceFeatures {
        fundamental_freq: f0,
        formant_frequencies: formants.to_vec(),
        spectral_centroid: centroid,
        spectral_bandwidth: 500,
        zero_crossing_rate: 100,
        energy: 1_000_000,
        cepstrum: vec![cep; 12],
    }
}

#[test]
fn same_voice_twice_keeps_one_profile() {
    let mut d = RealtimeSpeakerDiarization::new();
    let v = voice(120, [700, 1200, 2500], 1500, -3000);
    let first = d.identify_speaker(&v);
    let second = d.identify_speaker(&v);
    assert_eq!(first, "Speaker 1");
    assert_eq!(second, "Speaker 1");
    assert_eq!(d.get_speaker_count(), 1);
    let p = &d.get_speaker_profiles()[0];
    assert_eq!(p.id, "Speaker_1");
    assert_eq!(p.sample_count, 2);
    assert_eq!(p.confidence, 1000);
}

#[test]
fn distinct_voices_get_distinct_labels() {
    let mut d = RealtimeSpeakerDiarization::new();
    let low = voice(100, [500, 1000, 2200], 1000, -5000);
    let high = voice(300, [900, 2000, 3500], 3000, 2000);
    assert_eq!(d.identify_speaker(&low), "Speaker 1");
    assert_eq!(d.identify_speaker(&high), "Speaker 2");
    assert_eq!(d.identify_speaker(&low), "Speaker 1");
    assert_eq!(d.get_speaker_count(), 2);
    assert_eq!(d.get_current_speaker(), Some("Speaker 1".to_string()));
    assert_eq!(d.get_speaker_profiles()[1].id, "Speaker_2");
}

#[test]
fn matched_profile_moves_toward_the_voice() {
    let mut d = RealtimeSpeakerDiarization::new();
    d.identify_speaker(&voice(200, [700, 1200, 2500], 1500, 0));
    d.identify_speaker(&voice(220, [700, 1200, 2500], 1500, 0));
    let p = &d.get_speaker_profiles()[0];
    assert_eq!(d.get_speaker_count(), 1);
    assert_eq!(p.fundamental_freq, 202);
}

#[test]
fn similarity_of_identical_features_is_full() {
    let mut d = RealtimeSpeakerDiarization::new();
    let v = voice(150, [600, 1100, 2400], 1800, -1000);
    d.identify_speaker(&v);
    assert_eq!(similarity_of(&v, &d.get_speaker_profiles()[0]), 1000);
}

#[test]
fn zero_features_leave_the_profile_unchanged() {
    let mut d = RealtimeSpeakerDiarization::new();
    d.identify_speaker(&voice(200, [1000, 1200, 2500], 1500, 0));
    d.identify_speaker(&voice(200, [0, 1200, 2500], 1500, 0));
    assert_eq!(d.get_speaker_count(), 1);
    let p = &d.get_speaker_profiles()[0];
    assert_eq!(p.formant_frequencies, vec![1000, 1200, 2500]);
    assert_eq!(p.sample_count, 2);
}

#[test]
fn every_new_profile_gets_a_new_label() {
    let mut d = RealtimeSpeakerDiarization::new();
    let mut labels = Vec::new();
    for k in 0..7u32 {
        let f0 = 100 * 3u32.pow(k);
        labels.push(d.identify_speaker(&voice(f0, [300 * (k + 1), 900 * (k + 1), 2700 * (k + 1)], 500 * (k + 1), -9000 + 3000 * k as i32)));
    }
    assert_eq!(d.get_speaker_count(), 7);
    assert_eq!(labels[4], "Speaker 5");
    assert_eq!(labels[6], "Speaker 7");
    let mut unique = labels.clone();
    unique.sort();
    unique.dedup();
    assert_eq!(unique.len(), 7);
}
