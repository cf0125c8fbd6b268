//! Reading the sources of the music: keysplit tables, voicegroups, samples,
//! song lists and MIDI files.

use emerald::audio::data::{Event, EventKind, MusicPack, Voice};
use emerald::files::Files;
use emerald::musicgen::bank::{
    in_range, make_song, parse_voice, row_group, row_kept, songs_named, wanted, Added, Bank, Made,
    Want,
};
use emerald::musicgen::extract::{extract, Sources};
use emerald::musicgen::midi::{parse_midi, read_varlen, scan_midi, vel_lut, Midi};
use emerald::musicgen::source::{
    parse_incbin_labels, parse_keysplits, parse_midi_cfg, parse_voicegroup,
};
use emerald::musicgen::wav::{parse_wav, scan_wav, Wav};

fn text(s: &str) -> Vec<char> {
    s.chars().collect()
}

fn texts(v: &[&str]) -> Vec<Vec<char>> {
    v.iter().map(|s| text(s)).collect()
}

#[test]
fn keysplit_tables_read_on_into_their_neighbours() {
    let source = "keysplit piano, 36\n\tsplit 0, 37 @ low\n\tsplit 1, 40\n\nkeysplit guitar, 4\n\tsplit 7, 5\n";
    let t = parse_keysplits(source).unwrap();
    assert_eq!(t.len(), 2);
    assert_eq!(t[0].name, "piano");
    assert_eq!(&t[0].map[34..45], &[0xFF, 0xFF, 0, 0, 1, 1, 1, 7, 7, 0xFF, 0xFF]);
    assert_eq!(t[1].name, "guitar");
    assert_eq!(&t[1].map[..8], &[0, 1, 1, 1, 7, 7, 0xFF, 0xFF]);
    assert!(parse_keysplits("split 0, 3\n").is_none(), "no table yet");
    assert!(parse_keysplits("keysplit a, 9\nsplit 0, 3\n").is_none(), "ends before it begins");
    assert!(parse_keysplits("keysplit a, 0\nsplit x, 3\n").is_none(), "no number");
}

#[test]
fn labels_and_their_files() {
    let m = parse_incbin_labels(
        "DirectSoundWaveData_a::\n\t.incbin \"sound/a.bin\" @ a\nB::\n\t.incbin \"sound/b.bin\"\n\t.incbin \"sound/c.bin\"\n",
    );
    assert_eq!(m.get(&text("DirectSoundWaveData_a")), Some(text("sound/a.bin")));
    assert_eq!(m.get(&text("B")), Some(text("sound/b.bin")));
    assert_eq!(m.get(&text("C")), None);
}

#[test]
fn the_song_list() {
    let rows = parse_midi_cfg(
        "mus_a.mid:  -E -R50 -G_cycling -V083\nno options\nse_b.mid: -G007\nph_c.mid: -Gx -V999\nmus_d.mid: -V1\n",
    );
    assert_eq!(rows.len(), 3);
    assert_eq!(rows[0].name, text("mus_a"));
    assert_eq!(rows[0].group, text("cycling"));
    assert_eq!((rows[0].volume, rows[0].reverb), (83, 50));
    assert_eq!((rows[1].volume, rows[1].reverb), (127, 0));
    assert_eq!(rows[2].volume, 127, "a volume past a byte does not count");
    let groups = texts(&["cycling", "007", "x", "cycling"]);
    assert_eq!(row_group(&rows[0], &groups), Some(3), "the last of a name counts");
    assert_eq!(row_group(&rows[1], &groups), Some(1));
    assert_eq!(row_group(&rows[2], &groups), None, "neither music nor an effect");
    assert!(row_kept(&rows[1]) && !row_kept(&rows[2]));
}

#[test]
fn voicegroups_and_their_voices() {
    let g = parse_voicegroup(
        "voice_group main, 3\n\tvoice_keysplit_all voicegroup_drums\n\tvoice_keysplit voicegroup_drums, keysplit_piano\n\tvoice_directsound 60, 0, SampleA, 255, 165, 51, 242\n\tvoice_directsound_no_resample 60, 0, SampleA, 255, 165, 51, 242\n\tvoice_square_1 60, 0, 0, 6, 0, 0, 15, 0\n\tvoice_square_2 60, 1, 2, 0, 1, 15, 3\n\tvoice_programmable_wave 60, 0, WaveA, 0, 7, 15, 1\n\tvoice_noise 60, 0, 3, 0, 0, 15, 0 @ hat\n\tcry Cry_A\n\tvoice_noise 60\n",
    )
    .unwrap();
    assert_eq!(g.name, text("main"));
    assert_eq!(g.offset, 3);
    assert_eq!(g.entries.len(), 10);
    assert!(parse_voicegroup("voice_noise 1\n").is_none(), "no name");

    let groups = texts(&["drums", "main"]);
    let tables = texts(&["piano"]);
    let samples = parse_incbin_labels("SampleA::\n.incbin \"sound/a.bin\"\n");
    let waves = parse_incbin_labels("WaveA::\n.incbin \"sound/w.pcm\"\n");
    let mut bank = Bank::new();
    match wanted(&g.entries[2].kind, &g.entries[2].args, &samples, &waves, &bank) {
        Want::Sample { label, path } => {
            assert_eq!(path, text("sound/a.wav"));
            assert!(matches!(bank.add_sample(&label, &sample_file()), Added::Yes));
        }
        _ => panic!("a sample is wanted"),
    }
    assert!(
        matches!(wanted(&g.entries[3].kind, &g.entries[3].args, &samples, &waves, &bank), Want::Nothing),
        "each sample is read once"
    );
    match wanted(&g.entries[6].kind, &g.entries[6].args, &samples, &waves, &bank) {
        Want::Wave { label, path } => {
            assert_eq!(path, text("sound/w.pcm"));
            bank.add_wave(&label, &[0x12, 0x34]);
        }
        _ => panic!("a wave is wanted"),
    }
    assert_eq!(&bank.waves[0][..6], &[1, 2, 3, 4, 0, 0]);
    let voices: Vec<Voice> = g
        .entries
        .iter()
        .map(|e| parse_voice(&e.kind, &e.args, &groups, &tables, &bank))
        .collect();
    assert_eq!(voices[0], Voice::KeysplitAll { group: 0 });
    assert_eq!(voices[1], Voice::Keysplit { group: 0, table: 0 });
    let sample = |fixed| Voice::DirectSound {
        base_key: 60,
        pan: 0,
        sample: 0,
        adsr: [255, 165, 51, 242],
        fixed,
    };
    assert_eq!(voices[2], sample(false));
    assert_eq!(voices[3], sample(true));
    assert_eq!(voices[4], Voice::Square { base_key: 60, pan: 0, sweep: 0, duty: 2, adsr: [0, 0, 15, 0] });
    assert_eq!(voices[5], Voice::Square { base_key: 60, pan: 1, sweep: 0, duty: 2, adsr: [0, 1, 15, 3] });
    assert_eq!(voices[6], Voice::Wave { base_key: 60, pan: 0, wave: 0, adsr: [0, 7, 15, 1] });
    assert_eq!(voices[7], Voice::Noise { base_key: 60, pan: 0, period: 1, adsr: [0, 0, 15, 0] });
    assert_eq!(voices[8], Voice::Unsupported);
    assert_eq!(voices[9], Voice::Unsupported);
}

fn chunk(id: &[u8; 4], body: &[u8]) -> Vec<u8> {
    let mut c = id.to_vec();
    c.extend((body.len() as u32).to_le_bytes());
    c.extend(body);
    if body.len() % 2 == 1 {
        c.push(0);
    }
    c
}

fn riff(chunks: &[Vec<u8>]) -> Vec<u8> {
    let mut d = b"RIFF\0\0\0\0WAVE".to_vec();
    for c in chunks {
        d.extend(c);
    }
    d
}

fn format(channels: u16) -> Vec<u8> {
    let mut f = vec![1, 0];
    f.extend(channels.to_le_bytes());
    f.extend(8000u32.to_le_bytes());
    f.extend([0, 0, 0, 0, 1, 0, 8, 0]);
    chunk(b"fmt ", &f)
}

fn sample_file() -> Vec<u8> {
    let mut smpl = vec![0u8; 60];
    smpl[28] = 1;
    smpl[44] = 2;
    smpl[48] = 3;
    riff(&[format(1), chunk(b"smpl", &smpl), chunk(b"data", &[0, 128, 255, 129, 7])])
}

#[test]
fn samples() {
    let s = parse_wav(&sample_file(), "a").unwrap();
    assert_eq!(s.name, "a");
    assert_eq!(f32::from_bits(s.rate), 8000.0);
    assert_eq!(s.loop_start, Some(2));
    assert_eq!(s.pcm, vec![-128, 0, 127, 1], "nothing past the loop's end plays");

    let exact = riff(&[
        chunk(b"agbp", &(13379u32 * 1024 + 512).to_le_bytes()),
        chunk(b"agbl", &2u32.to_le_bytes()),
        format(1),
        chunk(b"data", &[1, 2, 3]),
    ]);
    let s = parse_wav(&exact, "b").unwrap();
    assert_eq!(f32::from_bits(s.rate), 13379.5, "the exact pitch beats the header");
    assert_eq!(s.pcm, vec![-127, -126]);
    assert_eq!(s.loop_start, None);

    assert!(matches!(scan_wav(b"RIFX", "c"), Wav::Refused));
    assert!(matches!(scan_wav(&riff(&[format(2)]), "c"), Wav::Refused), "stereo");
    assert!(matches!(scan_wav(&riff(&[format(1)]), "c"), Wav::Refused), "no sound");
    assert!(matches!(scan_wav(&riff(&[chunk(b"fmt ", &[1, 0])]), "c"), Wav::Broken));
    let mut short = sample_file();
    short.truncate(short.len() - 2);
    assert!(matches!(scan_wav(&short, "c"), Wav::Refused), "a chunk past the end");
}

#[test]
fn the_exact_loop_end_wins_in_any_order() {
    let mut smpl = vec![0u8; 60];
    smpl[28] = 1;
    smpl[44] = 1;
    smpl[48] = 3;
    let smpl = chunk(b"smpl", &smpl);
    let agbl = chunk(b"agbl", &2u32.to_le_bytes());
    let agbp = chunk(b"agbp", &(5000u32 * 1024).to_le_bytes());
    let data = chunk(b"data", &[1, 2, 3, 4, 5]);
    for parts in [
        [&smpl, &agbl, &agbp, &data],
        [&agbl, &smpl, &data, &agbp],
        [&data, &agbp, &agbl, &smpl],
    ] {
        let mut chunks: Vec<Vec<u8>> = parts.iter().map(|c| c.to_vec()).collect();
        chunks.insert(2, format(1));
        let s = parse_wav(&riff(&chunks), "a").unwrap();
        assert_eq!(s.pcm, vec![-127, -126]);
        assert_eq!(s.loop_start, Some(1));
        assert_eq!(f32::from_bits(s.rate), 5000.0);
    }
}

#[test]
fn a_track_without_a_lasting_note_is_not_kept() {
    let silent = vec![0, 0xC0, 5, 0, 0x90, 60, 100, 0, 0xFF, 0x2F, 0];
    let short = vec![0, 0x90, 60, 100, 0, 60, 0, 0, 0xFF, 0x2F, 0];
    let heard = vec![0, 0x90, 60, 100, 1, 60, 0, 0, 0xFF, 0x2F, 0];
    let (_, _, _, _, tracks) = parse_midi(&midi(&[silent, heard, short]), 127).unwrap();
    assert_eq!(
        tracks,
        vec![vec![Event { tick: 0, kind: EventKind::Note { key: 60, vel: 100, dur: 1 } }]]
    );
}

fn midi(tracks: &[Vec<u8>]) -> Vec<u8> {
    let mut d = b"MThd\0\0\0\x06\0\x01\0".to_vec();
    d.push(tracks.len() as u8);
    d.extend([0, 24]);
    for t in tracks {
        d.extend(b"MTrk");
        d.extend((t.len() as u32).to_be_bytes());
        d.extend(t);
    }
    d
}

fn tune() -> Vec<u8> {
    midi(&[
        vec![
            0, 0xFF, 0x51, 3, 0x07, 0xA1, 0x20, // 500000
            24, 0xFF, 0x06, 1, b'[', //
            24, 0xFF, 0x06, 1, b']', //
            0, 0xFF, 0x2F, 0,
        ],
        vec![
            0, 0xC0, 5, // program
            0, 0xB0, 7, 127, // volume
            0, 10, 64, // pan, running status
            0, 1, 9, // modulation
            0, 20, 12, // bend range
            0, 21, 44, // LFO speed
            0, 0xE0, 0, 0x20, // bend
            0, 0x90, 60, 100, // note on
            12, 60, 0, // and off
            0, 62, 1, // a second
            0x81, 0, 0x80, 62, 0, // off after 128 ticks
            0, 0x90, 64, 1, // never ends: dropped
            0, 0xFF, 0x2F, 0,
        ],
    ])
}

#[test]
fn a_tune() {
    let (division, tempos, from, to, tracks) = parse_midi(&tune(), 64).unwrap();
    assert_eq!(division, 24);
    assert_eq!(tempos, vec![(0, 500000)]);
    assert_eq!((from, to), (Some(24), Some(48)));
    assert_eq!(tracks.len(), 1, "only what sounds is kept");
    let kinds: Vec<(u32, EventKind)> = tracks[0].iter().map(|e| (e.tick, e.kind)).collect();
    assert_eq!(
        kinds,
        vec![
            (0, EventKind::Program(5)),
            (0, EventKind::Volume(64)),
            (0, EventKind::Pan(0)),
            (0, EventKind::Mod(9)),
            (0, EventKind::BendRange(12)),
            (0, EventKind::LfoSpeed(44)),
            (0, EventKind::Bend(-32)),
            (0, EventKind::Note { key: 60, vel: 100, dur: 12 }),
            (12, EventKind::Note { key: 62, vel: 4, dur: 128 }),
        ]
    );
    assert!(parse_midi(b"MThd", 127).is_none());
    assert!(matches!(scan_midi(&tune()[..60], 127), Midi::Refused));
    let quiet = parse_midi(&midi(&[vec![]]), 127).unwrap();
    assert_eq!(quiet.1, vec![(0, 500000)], "a tempo is always there");
    assert!(quiet.4.is_empty());
    let late = midi(&[vec![0x8F, 0xFF, 0xFF, 0xFF, 0x7F, 0xC0, 1, 1, 0xC0, 1]]);
    assert!(matches!(scan_midi(&late, 127), Midi::Broken), "a tick past 32 bits");
}

#[test]
fn velocities_and_lengths() {
    assert_eq!([0, 1, 4, 5, 100, 124, 125, 127].map(vel_lut), [0, 4, 4, 8, 100, 124, 127, 127]);
    assert_eq!(read_varlen(&[0x81, 0x00, 9], 0), Some((128, 2)));
    assert_eq!(read_varlen(&[5], 0), Some((5, 1)));
    assert_eq!(read_varlen(&[0x81], 0), None);
}

#[test]
fn songs_from_their_files() {
    let row = &parse_midi_cfg("mus_a.mid: -Ga -V064 -R9\n")[0];
    match make_song(row, 3, &tune()) {
        Made::Song(s) => {
            assert_eq!(s.name, "mus_a");
            assert_eq!((s.voicegroup, s.master_volume, s.reverb, s.division), (3, 64, 9, 24));
            assert_eq!(s.tracks.len(), 1);
            let pack = MusicPack {
                samples: vec![],
                waves: vec![],
                keysplits: vec![],
                voicegroups: vec![],
                songs: vec![s],
            };
            assert_eq!(songs_named(&pack, "mus_"), vec![0]);
            assert!(songs_named(&pack, "se_").is_empty());
            assert!(!in_range(&pack), "its voicegroup is not there");
        }
        _ => panic!("a song"),
    }
    assert!(matches!(make_song(row, 3, b"nothing"), Made::Skipped));
    assert!(matches!(make_song(row, 3, &midi(&[vec![]])), Made::Skipped));
    let late = midi(&[vec![0x8F, 0xFF, 0xFF, 0xFF, 0x7F, 0xC0, 1, 1, 0xC0, 1]]);
    assert!(matches!(make_song(row, 3, &late), Made::Broken));
}

fn sources() -> Sources {
    Sources {
        keysplits: "keysplit piano, 0\nsplit 0, 127\n".into(),
        samples: "SampleA::\n.incbin \"sound/a.bin\"\nSampleB::\n.incbin \"sound/b.bin\"\n".into(),
        waves: "WaveA::\n.incbin \"sound/w.pcm\"\n".into(),
        groups: vec![
            "voice_group drums\nvoice_directsound 60, 0, SampleA, 255, 165, 51, 242\nvoice_directsound 60, 0, SampleB, 255, 165, 51, 242\n".into(),
            "no group\n".into(),
            "voice_group main, 2\nvoice_keysplit voicegroup_drums, keysplit_piano\nvoice_programmable_wave 60, 0, WaveA, 0, 7, 15, 1\nvoice_directsound 61, 0, SampleA, 255, 165, 51, 242\n".into(),
        ],
        songs: "mus_a.mid: -G_main -V064 -R9\nmus_b.mid: -G_main\nse_c.mid: -G_none\nph_d.mid: -G_main\n".into(),
    }
}

#[test]
fn a_whole_extraction() {
    let mut files = Files::new();
    files.add("sound/a.wav", b"old".to_vec());
    files.add("sound/a.wav", sample_file());
    files.add("sound/w.pcm", vec![0x12]);
    files.add("sound/songs/midi/mus_a.mid", tune());
    let x = extract(&sources(), &files).unwrap();
    assert_eq!(x.skipped, 2, "a missing file and a missing group");
    let p = x.pack;
    assert_eq!(p.samples.len(), 1);
    assert_eq!(p.samples[0].name, "SampleA");
    assert_eq!(p.waves.len(), 1);
    assert_eq!(p.keysplits[0].name, "piano");
    assert_eq!(p.voicegroups.len(), 2);
    assert_eq!((p.voicegroups[1].name.as_str(), p.voicegroups[1].offset), ("main", 2));
    assert_eq!(p.voicegroups[0].entries[1], Voice::Unsupported, "its sample is missing");
    assert_eq!(p.voicegroups[1].entries[0], Voice::Keysplit { group: 0, table: 0 });
    assert!(matches!(p.voicegroups[1].entries[2], Voice::DirectSound { base_key: 61, sample: 0, .. }));
    assert_eq!(p.songs.len(), 1);
    assert_eq!((p.songs[0].name.as_str(), p.songs[0].voicegroup), ("mus_a", 1));
    assert!(in_range(&p), "no number leads nowhere");
    assert_eq!(p.subset(&songs_named(&p, "mus_")).songs.len(), 1);

    files.add("sound/songs/midi/mus_b.mid", midi(&[vec![0x8F, 0xFF, 0xFF, 0xFF, 0x7F, 0xC0, 1, 1, 0xC0, 1]]));
    assert!(extract(&sources(), &files).is_none(), "a broken song");
}
