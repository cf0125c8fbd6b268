//! The sequencer: which voice a note plays, when it begins and ends, and what
//! a song is checked for.

use emerald::audio::check::{
    classify_drop, count_notes, end_tick, pack_file, passes, programs_used, silent_tracks, sort_drops,
    tempo_spans, tempos_in_order,
};
use emerald::audio::data::{
    Event, EventKind, KeysplitTable, MusicPack, SampleData, SongData, Voice, VoiceGroup,
};
use emerald::audio::engine::{
    resolve, side_vols, wave_vol_code, widened, Engine, EnvPhase, MAX_CHANNELS,
};
use emerald::audio::mixer::{queue_target, Mixer};
use emerald::audio::tables::{
    lfsr15, lfsr7, noise_index, noise_nr43, psg_sides, psg_sustain, ring_back, square_period,
};
use emerald::audio::wav::wav_bytes;

fn test_pack() -> MusicPack {
    // one looping sample, one drumset + keysplit chain, one song
    let sub = VoiceGroup {
        name: "sub".into(),
        offset: 0,
        entries: vec![
            Voice::DirectSound { base_key: 60, pan: 0, sample: 0, adsr: [255, 0, 255, 165], fixed: false },
            Voice::Square { base_key: 60, pan: 0, duty: 2, sweep: 0, adsr: [0, 0, 15, 0] },
            Voice::DirectSound { base_key: 48, pan: 0xC0u8.wrapping_add(16), sample: 0, adsr: [255, 0, 255, 165], fixed: false },
        ],
    };
    let main = VoiceGroup {
        name: "main".into(),
        offset: 0,
        entries: vec![
            Voice::KeysplitAll { group: 0 },
            Voice::Keysplit { group: 0, table: 0 },
            Voice::Wave { base_key: 60, pan: 0, wave: 0, adsr: [0, 0, 15, 3] },
            Voice::Noise { base_key: 60, pan: 0, period: 0, adsr: [0, 0, 15, 3] },
        ],
    };
    let mut map = [0xFFu8; 128];
    for k in 40..80 {
        map[k] = if k < 60 { 0 } else { 1 };
    }
    let mut wave = [0u8; 32];
    for (i, w) in wave.iter_mut().enumerate() {
        *w = (i / 2) as u8;
    }
    MusicPack {
        samples: vec![SampleData {
            name: "s".into(),
            rate: 13379.0f32.to_bits(),
            loop_start: Some(8),
            pcm: (0..64).map(|i| if i % 8 < 4 { 100 } else { -100 }).collect(),
        }],
        waves: vec![wave],
        keysplits: vec![KeysplitTable { name: "t".into(), map }],
        voicegroups: vec![sub, main],
        songs: vec![SongData {
            name: "test".into(),
            voicegroup: 1,
            master_volume: 127,
            reverb: 50,
            division: 24,
            tempos: vec![(0, 500000)], // 120 BPM
            loop_start: Some(0),
            loop_end: Some(96),
            tracks: vec![
                vec![
                    Event { tick: 0, kind: EventKind::Program(1) },
                    Event { tick: 0, kind: EventKind::Volume(100) },
                    Event { tick: 0, kind: EventKind::Note { key: 50, vel: 100, dur: 24 } },
                    Event { tick: 24, kind: EventKind::Note { key: 70, vel: 100, dur: 24 } },
                ],
                vec![
                    Event { tick: 0, kind: EventKind::Program(0) },
                    Event { tick: 0, kind: EventKind::Volume(100) },
                    Event { tick: 0, kind: EventKind::Note { key: 2, vel: 127, dur: 4 } },
                    Event { tick: 48, kind: EventKind::Note { key: 127, vel: 127, dur: 4 } },
                ],
                vec![
                    Event { tick: 0, kind: EventKind::Program(2) },
                    Event { tick: 0, kind: EventKind::Volume(90) },
                    Event { tick: 12, kind: EventKind::Note { key: 60, vel: 90, dur: 48 } },
                ],
            ],
        }],
    }
}

#[test]
fn keysplit_ranges_pick_sub_voices() {
    let pack = test_pack();
    let low = resolve(&pack, 1, 1, 50).unwrap();
    assert!(matches!(low.voice, Voice::DirectSound { .. }));
    assert_eq!(low.play_key, 50, "melodic keysplit keeps the played key");
    let high = resolve(&pack, 1, 1, 70).unwrap();
    assert!(matches!(high.voice, Voice::Square { .. }));
    assert!(resolve(&pack, 1, 1, 20).is_none(), "outside the table range");
}

#[test]
fn drumset_notes_play_at_the_sub_voice_base_key() {
    let pack = test_pack();
    let drum = resolve(&pack, 1, 0, 2).unwrap();
    assert_eq!(drum.play_key, 48, "drum sounds at its own base key");
    assert_ne!(drum.rp, 0, "drum pan byte override applies");
    assert!(resolve(&pack, 1, 0, 100).is_none(), "no entry at that key");
}

/// One tick; what is released falls silent at once.
fn tick(e: &mut Engine) {
    assert!(e.can_tick());
    e.seq_tick();
    for i in 0..e.channels.len() {
        if e.channels[i].phase_env == EnvPhase::Release {
            e.step_channel(i, true);
        }
    }
    e.end_frame();
}

#[test]
fn every_note_sounds_or_is_recorded() {
    let mut e = Engine::new(test_pack(), 44100);
    e.play(0, false);
    let mut sounded = 0;
    for _ in 0..200 {
        let before = e.channels.len();
        assert!(e.can_tick());
        e.seq_tick();
        sounded += e.channels.len() - before;
        for i in 0..e.channels.len() {
            let release = e.channels[i].phase_env == EnvPhase::Release;
            e.step_channel(i, release);
        }
        e.end_frame();
    }
    assert_eq!(e.stats.notes_on, 5);
    // drum key 127 has no entry (the sub group has 3); everything else,
    // drum key 2 and both keysplit halves among it, must sound
    assert_eq!(e.stats.dropped, vec![(1, 0, 127)]);
    assert_eq!(sounded, 4);
    assert_eq!(e.stats.spawned_audible, vec![true, true, true]);
}

#[test]
fn effects_share_a_file() {
    assert_eq!(pack_file("se_door"), "sfx.bin");
    assert_eq!(pack_file("mus_cycling"), "mus_cycling.bin");
    assert_eq!(pack_file(""), ".bin");
}

#[test]
fn an_envelope_goes_forward() {
    assert!(EnvPhase::Attack.next(true) == EnvPhase::Decay);
    assert!(EnvPhase::Decay.next(true) == EnvPhase::Sustain);
    assert!(EnvPhase::Sustain.next(true) == EnvPhase::Sustain);
    assert!(EnvPhase::Release.next(true) == EnvPhase::Dead);
    assert!(EnvPhase::Dead.next(true) == EnvPhase::Dead);
    assert!(EnvPhase::Release.next(false) == EnvPhase::Release);
}

#[test]
fn a_frame_clears_the_dead() {
    let mut e = Engine::new(test_pack(), 44100);
    e.play(0, false);
    e.seq_tick();
    let n = e.channels.len();
    assert!(n > 0);
    e.step_channel(0, true);
    assert!(e.channels[0].phase_env == EnvPhase::Decay);
    e.end_frame();
    assert_eq!(e.channels.len(), n, "a decaying channel stays");
    e.end_channel(0);
    e.end_frame();
    assert_eq!(e.channels.len(), n - 1);
}

#[test]
fn a_looping_song_goes_on_and_another_ends() {
    let mut e = Engine::new(test_pack(), 44100);
    e.play(0, true);
    let mut again = false;
    for i in 0..400 {
        tick(&mut e);
        assert!(e.playing(), "a looping song plays on");
        assert!(e.tick <= 96, "a loop is never left");
        again = again || (i > 96 && e.tick == 1);
    }
    assert!(again, "the loop begins anew");
    assert!(e.stats.notes_on > 15);

    let mut e = Engine::new(test_pack(), 44100);
    e.play(0, false);
    for _ in 0..100 {
        tick(&mut e);
    }
    assert!(!e.playing(), "a song without a loop ends");
    assert_eq!(e.channels.len(), 0);
}

#[test]
fn a_note_holds_for_its_gate() {
    let mut e = Engine::new(test_pack(), 44100);
    e.play(0, false);
    e.seq_tick();
    assert_eq!(e.channels[0].gate, 24);
    for _ in 0..23 {
        e.seq_tick();
        assert!(e.channels[0].phase_env == EnvPhase::Attack);
    }
    e.seq_tick();
    assert!(e.channels[0].phase_env == EnvPhase::Release);
}

#[test]
fn stop_silences_everything() {
    let mut e = Engine::new(test_pack(), 44100);
    assert_eq!(e.song_index("test"), Some(0));
    assert_eq!(e.song_index("none"), None);
    e.play(0, true);
    e.seq_tick();
    assert_eq!(e.channels.len(), 2);
    assert_eq!(e.tempo(), 500000);
    e.stop();
    assert!(!e.playing());
    assert_eq!(e.channels.len(), 0);
    assert_eq!(e.pack().songs.len(), 1);
}

#[test]
fn a_full_engine_records_the_notes_it_drops() {
    let mut pack = test_pack();
    pack.songs[0].tracks = vec![(0..300)
        .map(|_| Event { tick: 0, kind: EventKind::Note { key: 2, vel: 127, dur: 4 } })
        .collect()];
    let mut e = Engine::new(pack, 44100);
    e.play(0, false);
    e.seq_tick();
    assert_eq!(e.channels.len(), MAX_CHANNELS);
    assert_eq!(e.stats.notes_on, 300);
    assert_eq!(e.stats.dropped, vec![(0, 0, 2); 300 - MAX_CHANNELS]);
}

#[test]
fn controls_set_their_track() {
    let mut pack = test_pack();
    pack.songs[0].tracks = vec![vec![
        Event { tick: 0, kind: EventKind::Pan(-30) },
        Event { tick: 0, kind: EventKind::Bend(12) },
        Event { tick: 0, kind: EventKind::BendRange(7) },
        Event { tick: 0, kind: EventKind::Mod(9) },
        Event { tick: 0, kind: EventKind::LfoSpeed(40) },
        Event { tick: 1, kind: EventKind::Volume(80) },
    ]];
    let mut e = Engine::new(pack, 44100);
    e.play(0, false);
    e.seq_tick();
    let t = e.tracks[0];
    assert_eq!((t.pan, t.bend, t.bend_range, t.modulation, t.lfo_speed, t.vol), (-30, 12, 7, 9, 40, 100));
    e.seq_tick();
    assert_eq!(e.tracks[0].vol, 80);
    assert!(e.tracks[0].done);
}

#[test]
fn volumes() {
    assert_eq!(widened(0), 0);
    assert_eq!(widened(-64), -128);
    assert_eq!(widened(63), 126);
    assert_eq!(side_vols(127, 127, 0, 0), (124, 126));
    assert_eq!(side_vols(127, 127, -64, 0).1, 0);
    assert_eq!(side_vols(0, 127, 0, 0), (0, 0));
    let codes: Vec<u8> = [0, 1, 2, 5, 6, 9, 10, 13, 14, 15].iter().map(|l| wave_vol_code(*l)).collect();
    assert_eq!(codes, vec![0, 0, 1, 1, 2, 2, 3, 3, 4, 4]);
    assert_eq!(psg_sustain(15, 15), 15);
    assert_eq!(psg_sustain(8, 1), 1);
    assert_eq!(psg_sustain(0, 15), 0);
    assert_eq!(psg_sides(100, 100), (true, true));
    assert_eq!(psg_sides(50, 100), (false, true));
    assert_eq!(psg_sides(100, 50), (true, false));
    assert_eq!(psg_sides(0, 0), (false, true));
}

#[test]
fn generator_tables() {
    assert_eq!(square_period(36), 2004);
    assert_eq!(square_period(0), 2004, "keys below the lowest sound as it");
    assert_eq!(square_period(48), 1002);
    assert_eq!(square_period(69), 298, "an A at 440 Hz");
    let nr = noise_nr43();
    assert_eq!((nr[0], nr[3], nr[4], nr[55]), (7, 4, 23, 212));
    assert_eq!(&nr[56..], &[3, 2, 1, 0]);
    assert_eq!((noise_index(0), noise_index(21), noise_index(60), noise_index(127)), (0, 0, 39, 59));
    assert_eq!(ring_back(2, 10, 5), 7);
    assert_eq!(ring_back(7, 10, 5), 2);
    let short = lfsr7();
    assert_eq!(short.len(), 127);
    assert_eq!(short.iter().filter(|b| **b).count(), 64);
    let long = lfsr15();
    assert_eq!(long.len(), 32767);
    assert_eq!(long.iter().filter(|b| **b).count(), 16384);
}

#[test]
fn reasons_for_a_silent_note() {
    let pack = test_pack();
    assert_eq!(classify_drop(&pack, 1, 9, 60), Some("program outside the voicegroup"));
    assert_eq!(classify_drop(&pack, 1, 0, 100), Some("drum key outside the drumset's range"));
    assert_eq!(
        classify_drop(&pack, 1, 1, 20),
        Some("key outside the keysplit tables' ROM span")
    );
    assert_eq!(classify_drop(&pack, 1, 1, 50), None, "it sounds");
    assert_eq!(classify_drop(&pack, 7, 1, 50), None, "no such group");

    let mut odd = test_pack();
    odd.voicegroups[1].entries = vec![
        Voice::Unsupported,
        Voice::KeysplitAll { group: 2 },
        Voice::Keysplit { group: 2, table: 0 },
        Voice::Keysplit { group: 9, table: 0 },
        Voice::Keysplit { group: 2, table: 9 },
        Voice::KeysplitAll { group: 9 },
    ];
    odd.voicegroups.push(VoiceGroup {
        name: "odd".into(),
        offset: 0,
        entries: vec![Voice::Unsupported, Voice::KeysplitAll { group: 0 }],
    });
    assert_eq!(classify_drop(&odd, 1, 0, 0), Some("unsupported voice kind (cry)"));
    assert_eq!(classify_drop(&odd, 1, 1, 0), Some("drum key is an unsupported voice"));
    assert_eq!(classify_drop(&odd, 1, 1, 1), Some("nested keysplit (engine forbids)"));
    assert_eq!(classify_drop(&odd, 1, 2, 50), Some("keysplit resolves to unsupported voice"));
    assert_eq!(classify_drop(&odd, 1, 2, 70), Some("nested keysplit (engine forbids)"));
    assert_eq!(classify_drop(&odd, 1, 3, 50), None);
    assert_eq!(classify_drop(&odd, 1, 4, 50), None);
    assert_eq!(classify_drop(&odd, 1, 5, 50), None);
    odd.keysplits[0].map[50] = 7;
    assert_eq!(classify_drop(&odd, 1, 2, 50), Some("keysplit index outside the sub-voicegroup"));
}

#[test]
fn a_song_is_judged() {
    let pack = test_pack();
    let song = &pack.songs[0];
    assert_eq!(count_notes(song), 5);
    assert_eq!(end_tick(song), 96);
    assert_eq!(programs_used(song), vec![0, 1, 2]);
    let dropped = vec![(2, 1, 50), (1, 0, 127), (0, 0, 100), (1, 0, 127)];
    let (bugs, quirks) = sort_drops(&pack, 1, &dropped);
    assert_eq!(bugs, vec![(2, 1, 50)]);
    assert_eq!(quirks, vec![(0, 0, 100), (1, 0, 127)]);
    let silent = silent_tracks(&vec![true, true, false], &vec![true, false, false]);
    assert_eq!(silent, vec![1]);
    assert!(passes(&vec![], &vec![], 5));
    assert!(!passes(&vec![], &vec![], 0));
    assert!(!passes(&bugs, &vec![], 5));
    assert!(!passes(&vec![], &silent, 5));
}

#[test]
fn stretches_of_one_tempo() {
    let tempos = vec![(0, 400000), (24, 600000), (90, 1)];
    assert!(tempos_in_order(&tempos));
    assert!(!tempos_in_order(&vec![(5, 1), (4, 1)]));
    assert_eq!(tempo_spans(&tempos, 48), vec![(0, 500000), (24, 400000), (24, 600000)]);
    assert_eq!(tempo_spans(&vec![], 48), vec![(48, 500000)]);
}

#[test]
fn a_sound_file() {
    let b = wav_bytes(44100, &[1, -1]);
    assert_eq!(b.len(), 48);
    assert_eq!(&b[..4], b"RIFF");
    assert_eq!(&b[4..8], &40u32.to_le_bytes());
    assert_eq!(&b[8..16], b"WAVEfmt ");
    assert_eq!(&b[24..28], &44100u32.to_le_bytes());
    assert_eq!(&b[28..32], &176400u32.to_le_bytes());
    assert_eq!(&b[36..44], b"data\x04\x00\x00\x00");
    assert_eq!(&b[44..], &[1, 0, 255, 255]);
}

#[test]
fn the_mixer_swaps_songs_and_plays_effects() {
    let bytes = test_pack().to_bytes();
    let mut m = Mixer::new(Some(&bytes), 44100).unwrap();
    assert!(m.music.is_none());
    assert!(m.play_sfx("test"));
    assert!(!m.play_sfx("no such effect"));
    assert!(m.sfx.as_ref().unwrap().playing());
    assert!(!m.sfx.as_ref().unwrap().looping);
    assert!(m.set_music(&bytes).is_ok());
    assert!(m.music.as_ref().unwrap().looping);
    assert!(m.set_music(b"NOTMAGIC").is_err());
    assert!(m.music.as_ref().unwrap().playing(), "a bad pack changes nothing");
    assert!(Mixer::new(Some(b"NOTMAGIC"), 44100).is_err());
    let mut silent = Mixer::new(None, 44100).unwrap();
    assert!(!silent.play_sfx("test"));
    assert_eq!(queue_target(44100), 13230);
}
