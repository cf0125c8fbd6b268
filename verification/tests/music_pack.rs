//! The music pack file, its subsets, and the voices of a song.

use emerald::audio::data::{
    Event, EventKind, KeysplitTable, MusicPack, SampleData, SongData, Voice, VoiceGroup,
};

#[test]
fn data_roundtrip() {
    let pack = MusicPack {
        samples: vec![SampleData {
            name: "glockenspiel".into(),
            rate: 13379.0f32.to_bits(),
            loop_start: Some(42),
            pcm: vec![-128, 0, 127],
        }],
        waves: vec![[7u8; 32]],
        keysplits: vec![KeysplitTable { name: "keysplit_piano".into(), map: [3; 128] }],
        voicegroups: vec![VoiceGroup {
            name: "cycling".into(),
            offset: 0,
            entries: vec![
                Voice::KeysplitAll { group: 0 },
                Voice::Keysplit { group: 0, table: 0 },
                Voice::Square { base_key: 60, pan: 0, duty: 2, sweep: 0, adsr: [0, 0, 15, 0] },
                Voice::DirectSound {
                    base_key: 60,
                    pan: 0,
                    sample: 0,
                    adsr: [255, 165, 51, 242],
                    fixed: false,
                },
                Voice::Wave { base_key: 60, pan: 0, wave: 0, adsr: [0, 0, 15, 0] },
                Voice::Noise { base_key: 60, pan: 0, period: 1, adsr: [0, 0, 15, 0] },
                Voice::Unsupported,
            ],
        }],
        songs: vec![SongData {
            name: "mus_cycling".into(),
            voicegroup: 0,
            master_volume: 83,
            reverb: 50,
            division: 24,
            tempos: vec![(0, 500000)],
            loop_start: Some(0),
            loop_end: Some(9600),
            tracks: vec![vec![
                Event { tick: 0, kind: EventKind::Program(1) },
                Event { tick: 0, kind: EventKind::Volume(90) },
                Event { tick: 4, kind: EventKind::Note { key: 60, vel: 100, dur: 24 } },
                Event { tick: 30, kind: EventKind::Bend(-32) },
                Event { tick: 31, kind: EventKind::Pan(-64) },
                Event { tick: 32, kind: EventKind::Mod(5) },
                Event { tick: 33, kind: EventKind::BendRange(12) },
                Event { tick: 34, kind: EventKind::LfoSpeed(44) },
            ]],
        }],
    };
    let bytes = pack.to_bytes();
    assert_eq!(MusicPack::from_bytes(&bytes).unwrap(), pack);
    assert!(MusicPack::from_bytes(&bytes[..bytes.len() - 2]).is_err());
}

#[test]
fn subset_keeps_reachable_data_and_remaps_indices() {
    // two of everything; song 1 reaches only the SECOND of each via a
    // keysplit chain, so the subset must drop the firsts and remap to 0
    let sample = |name: &str| SampleData {
        name: name.into(),
        rate: 8000.0f32.to_bits(),
        loop_start: None,
        pcm: vec![1, 2, 3],
    };
    let song = |name: &str, vg: u16| SongData {
        name: name.into(),
        voicegroup: vg,
        master_volume: 127,
        reverb: 0,
        division: 24,
        tempos: vec![(0, 500000)],
        loop_start: None,
        loop_end: None,
        tracks: vec![vec![Event {
            tick: 0,
            kind: EventKind::Note { key: 60, vel: 100, dur: 24 },
        }]],
    };
    let pack = MusicPack {
        samples: vec![sample("unused"), sample("used")],
        waves: vec![[0u8; 32], [7u8; 32]],
        keysplits: vec![
            KeysplitTable { name: "unused".into(), map: [0; 128] },
            KeysplitTable { name: "used".into(), map: [1; 128] },
        ],
        voicegroups: vec![
            VoiceGroup {
                name: "unused".into(),
                offset: 0,
                entries: vec![Voice::DirectSound {
                    base_key: 60,
                    pan: 0,
                    sample: 0,
                    adsr: [0; 4],
                    fixed: false,
                }],
            },
            VoiceGroup {
                name: "sub".into(),
                offset: 0,
                entries: vec![
                    Voice::DirectSound {
                        base_key: 60,
                        pan: 0,
                        sample: 1,
                        adsr: [0; 4],
                        fixed: false,
                    },
                    Voice::Wave { base_key: 60, pan: 0, wave: 1, adsr: [0; 4] },
                ],
            },
            VoiceGroup {
                name: "main".into(),
                offset: 0,
                entries: vec![Voice::Keysplit { group: 1, table: 1 }],
            },
        ],
        songs: vec![song("mus_unused", 0), song("mus_used", 2)],
    };
    let sub = pack.subset(&[1]);
    assert_eq!(sub.songs.len(), 1);
    assert_eq!(sub.songs[0].name, "mus_used");
    assert_eq!(sub.samples.len(), 1);
    assert_eq!(sub.samples[0].name, "used");
    assert_eq!(sub.waves, vec![[7u8; 32]]);
    assert_eq!(sub.keysplits.len(), 1);
    assert_eq!(sub.voicegroups.len(), 2, "closure keeps main + sub");
    // remapped: song to "main" (now 1), whose keysplit to "sub" (now 0)
    assert_eq!(sub.songs[0].voicegroup, 1);
    assert_eq!(sub.voicegroups[1].entries[0], Voice::Keysplit { group: 0, table: 0 });
    assert_eq!(
        sub.voicegroups[0].entries[0],
        Voice::DirectSound { base_key: 60, pan: 0, sample: 0, adsr: [0; 4], fixed: false }
    );
    // a subset of all its songs is the subset again
    assert_eq!(sub.subset(&[0]), sub);
    // the subset is a valid pack in its own right
    assert_eq!(MusicPack::from_bytes(&sub.to_bytes()).unwrap(), sub);
}

#[test]
fn each_fault_of_a_music_pack_has_its_message() {
    let message = |b: &[u8]| MusicPack::from_bytes(b).unwrap_err().0;
    assert_eq!(message(b"EMMUSIC0"), "bad magic (regenerate with musicgen)");
    assert_eq!(message(b"EMMUSIC1"), "truncated");
    let mut long = b"EMMUSIC1".to_vec();
    long.extend([0xFF; 8]);
    assert_eq!(message(&long), "length exceeds data");
    let mut name = b"EMMUSIC1".to_vec();
    name.extend([1, 0, 0, 0, 1, 0, 0, 0, 0xFF]);
    assert_eq!(message(&name), "bad utf8");

    let empty =
        || MusicPack { samples: vec![], waves: vec![], keysplits: vec![], voicegroups: vec![], songs: vec![] };
    let mut pack = empty();
    pack.voicegroups.push(VoiceGroup { name: "g".into(), offset: 2, entries: vec![Voice::Unsupported] });
    assert_eq!(pack.voicegroups[0].voice(2), Some(&Voice::Unsupported));
    assert_eq!(pack.voicegroups[0].voice(1), None);
    assert_eq!(pack.voicegroups[0].voice(3), None);
    let mut b = pack.to_bytes();
    let at = b.len() - 5;
    b[at] = 99;
    assert_eq!(message(&b), "bad voice tag");

    let mut pack = empty();
    pack.songs.push(SongData {
        name: "s".into(),
        voicegroup: 0,
        master_volume: 127,
        reverb: 0,
        division: 24,
        tempos: vec![],
        loop_start: None,
        loop_end: None,
        tracks: vec![vec![Event { tick: 0, kind: EventKind::Program(1) }]],
    });
    let mut b = pack.to_bytes();
    let at = b.len() - 2;
    b[at] = 99;
    assert_eq!(message(&b), "bad event tag");
}
