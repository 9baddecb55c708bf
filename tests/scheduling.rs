use steno::scheduler::{
    accurate_chunks, combine_accurate, draft_result, fast_config, accurate_config,
    split_long_audio, EngineOutput,
};
use steno::scheduler::TierStats;
use steno::transcript::TranscriptResult;
use steno::session::{
    accepts_audio, select_input_device, transition, AudioDevice, AudioDeviceInfo,
    DeviceSelection, SessionCommand, SessionState,
};

#[test]
fn long_audio_is_windowed_with_overlap() {
    let audio: Vec<i16> = (0..96000).map(|i| (i % 100) as i16).collect();
    let chunks = split_long_audio(&audio);
    assert_eq!(chunks.len(), 3);
    assert_eq!(chunks[0].len(), 48000);
    assert_eq!(chunks[1].len(), 48000);
    assert_eq!(chunks[1][0], audio[44000]);
    assert_eq!(chunks[2].len(), 8000);
    assert_eq!(chunks[2][0], audio[88000]);
    assert_eq!(accurate_chunks(&audio).len(), 3);
    assert_eq!(accurate_chunks(&audio[..80000]).len(), 1);
    assert!(split_long_audio(&[]).is_empty());
}

#[test]
fn stale_fast_results_are_dropped() {
    let out = EngineOutput { text: "draft".to_string(), confidence: 900 };
    assert!(draft_result(out.clone(), None, 7, 151).is_none());
    let r = draft_result(out, None, 7, 150).unwrap();
    assert_eq!(r.confidence, 720);
    assert!(r.is_temporary);
    assert_eq!(r.segment_id, "fast_7");
}

#[test]
fn accurate_windows_are_joined_in_order() {
    let outs = vec![
        Some(EngineOutput { text: "first".to_string(), confidence: 800 }),
        None,
        Some(EngineOutput { text: " second ".to_string(), confidence: 600 }),
    ];
    let r = combine_accurate(&outs, 99, 300, 1500).unwrap();
    assert_eq!(r.text, "first  second");
    assert_eq!(r.confidence, 700);
    assert!(!r.is_temporary);
    assert_eq!(r.segment_id, "accurate_1500");
    assert!(combine_accurate(&vec![None, None], 1, 1, 1).is_none());
}

#[test]
fn tier_parameters() {
    let f = fast_config("zh".to_string(), None);
    let a = accurate_config("zh".to_string(), Some("prompt".to_string()));
    assert_eq!(f.mode, "fast");
    assert_eq!(a.mode, "accurate");
    assert_eq!((f.beam_size, f.temperature, f.max_tokens), (1, 200, 20));
    assert_eq!((a.beam_size, a.temperature, a.max_tokens), (5, 0, 50));
    assert!(a.speaker_diarization);
}

#[test]
fn session_lifecycle() {
    let s = transition(SessionState::Idle, SessionCommand::Start).unwrap();
    assert_eq!(s, SessionState::Recording);
    assert!(accepts_audio(s));
    let p = transition(s, SessionCommand::Pause).unwrap();
    assert!(!accepts_audio(p));
    assert_eq!(transition(p, SessionCommand::Resume), Some(SessionState::Recording));
    let stopped = transition(p, SessionCommand::Stop).unwrap();
    assert_eq!(transition(stopped, SessionCommand::Start), None);
    assert_eq!(transition(SessionState::Idle, SessionCommand::Pause), None);
}

fn device(id: &str, default: bool) -> AudioDevice {
    AudioDevice {
        id: id.to_string(),
        name: id.to_string(),
        is_default: default,
        device_type: "input".to_string(),
        supported_sample_rates: vec![16000],
        supported_channels: vec![1],
    }
}

#[test]
fn device_choice_is_explicit_configuration() {
    let mut sel = DeviceSelection::new();
    assert_eq!(sel.set_device("usb".to_string(), "speaker"), Err("Invalid device type".to_string()));
    assert!(sel.get_device("other").is_err());
    let info = AudioDeviceInfo {
        input_devices: vec![device("builtin", false), device("headset", true), device("usb", false)],
        output_devices: vec![],
    };
    assert_eq!(select_input_device(&info, &sel), Some(1));
    sel.set_device("usb".to_string(), "input").unwrap();
    assert_eq!(sel.get_device("input"), Ok(Some("usb".to_string())));
    assert_eq!(select_input_device(&info, &sel), Some(2));
    sel.set_device("gone".to_string(), "input").unwrap();
    assert_eq!(select_input_device(&info, &sel), Some(1));
    let none = AudioDeviceInfo { input_devices: vec![], output_devices: vec![] };
    assert_eq!(select_input_device(&none, &sel), None);
}

#[test]
fn tier_statistics_average_recent_times() {
    let mut st = TierStats::new();
    assert_eq!(st.get_stats(), (0, 0));
    let mk = |temporary: bool, ms: u64| TranscriptResult {
        text: String::new(),
        confidence: 0,
        is_temporary: temporary,
        speaker: None,
        timestamp: 0,
        processing_time_ms: ms,
        segment_id: String::new(),
    };
    st.update_stats(&mk(true, 100));
    st.update_stats(&mk(true, 151));
    st.update_stats(&mk(false, 900));
    assert_eq!(st.get_stats(), (125, 900));
    for _ in 0..100 {
        st.update_stats(&mk(true, 10));
    }
    assert_eq!(st.get_stats(), (10, 900));
}

#[test]
fn worker_pool_leaves_a_core_and_is_capped() {
    assert_eq!(steno::scheduler::worker_pool_size(0), 1);
    assert_eq!(steno::scheduler::worker_pool_size(1), 1);
    assert_eq!(steno::scheduler::worker_pool_size(2), 1);
    assert_eq!(steno::scheduler::worker_pool_size(4), 3);
    assert_eq!(steno::scheduler::worker_pool_size(64), 8);
    let n = steno::scheduler::default_worker_count();
    assert!(n >= 1 && n <= 8);
}
