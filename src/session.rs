//! Session lifecycle and the configuration an orchestrator holds.
use vstd::prelude::*;
use crate::text::{chars_eq, chars_of, string_of};
use crate::transcript::{copy_opt_string, opt_view};

verus! {

/// `Idle -> Recording -> {Paused <-> Recording} -> Stopped`; `Stopped` is terminal.
#[derive(Debug, Clone, Copy, PartialEq, Eq, Structural)]
pub enum SessionState {
    Idle,
    Recording,
    Paused,
    Stopped,
}

#[derive(Debug, Clone, Copy, PartialEq, Eq, Structural)]
pub enum SessionCommand {
    Start,
    Pause,
    Resume,
    Stop,
}

pub open spec fn next_state(s: SessionState, c: SessionCommand) -> Option<SessionState> {
    match (s, c) {
        (SessionState::Idle, SessionCommand::Start) => Some(SessionState::Recording),
        (SessionState::Recording, SessionCommand::Pause) => Some(SessionState::Paused),
        (SessionState::Paused, SessionCommand::Resume) => Some(SessionState::Recording),
        (SessionState::Recording, SessionCommand::Stop) => Some(SessionState::Stopped),
        (SessionState::Paused, SessionCommand::Stop) => Some(SessionState::Stopped),
        _ => None,
    }
}

/// The state a command leads to; none when the command is not allowed there.
pub fn transition(s: SessionState, c: SessionCommand) -> (r: Option<SessionState>)
    ensures
        r == next_state(s, c),
{
    match (s, c) {
        (SessionState::Idle, SessionCommand::Start) => Some(SessionState::Recording),
        (SessionState::Recording, SessionCommand::Pause) => Some(SessionState::Paused),
        (SessionState::Paused, SessionCommand::Resume) => Some(SessionState::Recording),
        (SessionState::Recording, SessionCommand::Stop) => Some(SessionState::Stopped),
        (SessionState::Paused, SessionCommand::Stop) => Some(SessionState::Stopped),
        _ => None,
    }
}

/// Whether audio frames are taken in this state.
pub fn accepts_audio(s: SessionState) -> (r: bool)
    ensures
        r == (s == SessionState::Recording),
{
    match s {
        SessionState::Recording => true,
        _ => false,
    }
}

/// Session settings handed to the orchestrator at start.
#[derive(Debug, Clone)]
pub struct RealtimeConfig {
    pub language: String,
    /// `streaming`, `buffered` or `hybrid`.
    pub mode: String,
    pub speaker_diarization: bool,
    pub noise_reduction: bool,
    pub auto_save: bool,
    /// Minutes.
    pub save_interval: u32,
}

#[derive(Debug, Clone)]
pub struct AudioDevice {
    pub id: String,
    pub name: String,
    pub is_default: bool,
    /// `input` or `output`.
    pub device_type: String,
    pub supported_sample_rates: Vec<u32>,
    pub supported_channels: Vec<u16>,
}

#[derive(Debug, Clone)]
pub struct AudioDeviceInfo {
    pub input_devices: Vec<AudioDevice>,
    pub output_devices: Vec<AudioDevice>,
}

pub open spec fn input_word() -> Seq<char> {
    seq!['i', 'n', 'p', 'u', 't']
}

pub open spec fn output_word() -> Seq<char> {
    seq!['o', 'u', 't', 'p', 'u', 't']
}

pub open spec fn invalid_type_message() -> Seq<char> {
    seq![
        'I', 'n', 'v', 'a', 'l', 'i', 'd', ' ', 'd', 'e', 'v', 'i', 'c', 'e', ' ', 't', 'y', 'p',
        'e',
    ]
}

fn invalid_type() -> (r: String)
    ensures
        r@ == invalid_type_message(),
{
    let v = vec![
        'I', 'n', 'v', 'a', 'l', 'i', 'd', ' ', 'd', 'e', 'v', 'i', 'c', 'e', ' ', 't', 'y', 'p',
        'e',
    ];
    assert(v@ =~= invalid_type_message());
    string_of(&v)
}

fn type_is(device_type: &str, word: Vec<char>) -> (r: bool)
    ensures
        r == (device_type@ == word@),
{
    let cs = chars_of(device_type);
    chars_eq(&cs, &word)
}

/// The devices chosen for this session, held by the orchestrator.
#[derive(Debug, Clone)]
pub struct DeviceSelection {
    pub input_device: Option<String>,
    pub output_device: Option<String>,
}

impl DeviceSelection {
    pub fn new() -> (r: Self)
        ensures
            r.input_device.is_none(),
            r.output_device.is_none(),
    {
        DeviceSelection { input_device: None, output_device: None }
    }

    /// Chooses the device for `input` or `output`; any other type is refused.
    pub fn set_device(&mut self, device_id: String, device_type: &str) -> (r: Result<(), String>)
        ensures
            device_type@ == input_word() ==> r.is_ok() && opt_view(final(self).input_device) == Some(
                device_id@,
            ) && opt_view(final(self).output_device) == opt_view(old(self).output_device),
            device_type@ == output_word() ==> r.is_ok() && opt_view(final(self).output_device)
                == Some(device_id@) && opt_view(final(self).input_device) == opt_view(
                old(self).input_device,
            ),
            device_type@ != input_word() && device_type@ != output_word() ==> r.is_err()
                && r->Err_0@ == invalid_type_message() && opt_view(final(self).input_device)
                == opt_view(old(self).input_device) && opt_view(final(self).output_device)
                == opt_view(old(self).output_device),
    {
        let v = vec!['i', 'n', 'p', 'u', 't'];
        assert(v@ =~= input_word());
        if type_is(device_type, v) {
            self.input_device = Some(device_id);
            return Ok(());
        }
        let v = vec!['o', 'u', 't', 'p', 'u', 't'];
        assert(v@ =~= output_word());
        if type_is(device_type, v) {
            self.output_device = Some(device_id);
            return Ok(());
        }
        Err(invalid_type())
    }

    /// The device chosen for `input` or `output`; any other type is refused.
    pub fn get_device(&self, device_type: &str) -> (r: Result<Option<String>, String>)
        ensures
            device_type@ == input_word() ==> r.is_ok() && opt_view(r->Ok_0) == opt_view(
                self.input_device,
            ),
            device_type@ == output_word() ==> r.is_ok() && opt_view(r->Ok_0) == opt_view(
                self.output_device,
            ),
            device_type@ != input_word() && device_type@ != output_word() ==> r.is_err()
                && r->Err_0@ == invalid_type_message(),
    {
        let v = vec!['i', 'n', 'p', 'u', 't'];
        assert(v@ =~= input_word());
        if type_is(device_type, v) {
            return Ok(copy_opt_string(&self.input_device));
        }
        let v = vec!['o', 'u', 't', 'p', 'u', 't'];
        assert(v@ =~= output_word());
        if type_is(device_type, v) {
            return Ok(copy_opt_string(&self.output_device));
        }
        Err(invalid_type())
    }
}

/// Index of the input device to open: the chosen one when present, else the
/// first default device, else the first device.
pub open spec fn chosen_input(devices: Seq<AudioDevice>, chosen: Option<Seq<char>>) -> int {
    let by_id = first_with_id(devices, chosen);
    if by_id >= 0 {
        by_id
    } else {
        let d = first_default(devices);
        if d >= 0 {
            d
        } else if devices.len() > 0 {
            0
        } else {
            -1
        }
    }
}

pub open spec fn first_with_id(devices: Seq<AudioDevice>, chosen: Option<Seq<char>>) -> int
    decreases devices.len(),
{
    if devices.len() == 0 || chosen.is_none() {
        -1
    } else {
        let p = first_with_id(devices.drop_last(), chosen);
        if p >= 0 {
            p
        } else if Some(devices.last().id@) == chosen {
            devices.len() - 1
        } else {
            -1
        }
    }
}

pub open spec fn first_default(devices: Seq<AudioDevice>) -> int
    decreases devices.len(),
{
    if devices.len() == 0 {
        -1
    } else {
        let p = first_default(devices.drop_last());
        if p >= 0 {
            p
        } else if devices.last().is_default {
            devices.len() - 1
        } else {
            -1
        }
    }
}

fn find_by_id(ds: &Vec<AudioDevice>, want: &String) -> (r: Option<usize>)
    ensures
        r matches Some(i) ==> first_with_id(ds@, Some(want@)) == i,
        r.is_none() ==> first_with_id(ds@, Some(want@)) == -1,
{
    let ghost dv = ds@;
    let ghost chosen = Some(want@);
    let wc = chars_of(want.as_str());
    let mut i: usize = 0;
    while i < ds.len()
        invariant
            dv == ds@,
            chosen == Some(wc@),
            wc@ == want@,
            i <= dv.len(),
            first_with_id(dv.subrange(0, i as int), chosen) == -1,
        decreases dv.len() - i,
    {
        let ghost nxt = dv.subrange(0, i + 1);
        assert(nxt.drop_last() =~= dv.subrange(0, i as int));
        let have = chars_of(ds[i].id.as_str());
        if chars_eq(&have, &wc) {
            assert(first_with_id(nxt, chosen) == i);
            proof {
                lemma_first_with_id_prefix(dv, chosen, (i + 1) as nat);
            }
            assert(first_with_id(dv, chosen) == i);
            assert(chosen == Some(want@));
            return Some(i);
        }
        i += 1;
    }
    assert(dv.subrange(0, dv.len() as int) =~= dv);
    None
}

fn find_default(ds: &Vec<AudioDevice>) -> (r: Option<usize>)
    ensures
        r matches Some(i) ==> first_default(ds@) == i,
        r.is_none() ==> first_default(ds@) == -1,
{
    let ghost dv = ds@;
    let mut i: usize = 0;
    while i < ds.len()
        invariant
            dv == ds@,
            i <= dv.len(),
            first_default(dv.subrange(0, i as int)) == -1,
        decreases dv.len() - i,
    {
        let ghost nxt = dv.subrange(0, i + 1);
        assert(nxt.drop_last() =~= dv.subrange(0, i as int));
        if ds[i].is_default {
            proof {
                lemma_first_default_prefix(dv, (i + 1) as nat);
            }
            return Some(i);
        }
        i += 1;
    }
    assert(dv.subrange(0, dv.len() as int) =~= dv);
    None
}

/// Picks the input device to open from the enumerated devices.
pub fn select_input_device(info: &AudioDeviceInfo, selection: &DeviceSelection) -> (r: Option<
    usize,
>)
    ensures
        chosen_input(info.input_devices@, opt_view(selection.input_device)) == -1 ==> r.is_none(),
        chosen_input(info.input_devices@, opt_view(selection.input_device)) >= 0 ==> r == Some(
            chosen_input(info.input_devices@, opt_view(selection.input_device)) as usize,
        ),
{
    let ds = &info.input_devices;
    let by_id = match &selection.input_device {
        Some(want) => find_by_id(ds, want),
        None => None,
    };
    match by_id {
        Some(i) => Some(i),
        None => match find_default(ds) {
            Some(i) => Some(i),
            None => if ds.len() > 0 {
                Some(0)
            } else {
                None
            },
        },
    }
}

proof fn lemma_first_with_id_prefix(d: Seq<AudioDevice>, c: Option<Seq<char>>, n: nat)
    requires
        n <= d.len(),
        first_with_id(d.subrange(0, n as int), c) >= 0,
    ensures
        first_with_id(d, c) == first_with_id(d.subrange(0, n as int), c),
    decreases d.len() - n,
{
    if n < d.len() {
        assert(d.subrange(0, (n + 1) as int).drop_last() =~= d.subrange(0, n as int));
        lemma_first_with_id_prefix(d, c, n + 1);
    } else {
        assert(d.subrange(0, n as int) =~= d);
    }
}

proof fn lemma_first_default_prefix(d: Seq<AudioDevice>, n: nat)
    requires
        n <= d.len(),
        first_default(d.subrange(0, n as int)) >= 0,
    ensures
        first_default(d) == first_default(d.subrange(0, n as int)),
    decreases d.len() - n,
{
    if n < d.len() {
        assert(d.subrange(0, (n + 1) as int).drop_last() =~= d.subrange(0, n as int));
        lemma_first_default_prefix(d, n + 1);
    } else {
        assert(d.subrange(0, n as int) =~= d);
    }
}

} // verus!
