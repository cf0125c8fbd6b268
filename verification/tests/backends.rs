//! What the hosts of the game decide: which song to fetch, what waits for the
//! page, the order of draws, the scripted input.

use emerald::audio::data::{MusicPack, SongData};
use emerald::backends::audio_web::AudioSlot;
use emerald::backends::blit::{first_gate, mix};
use emerald::backends::draw::draw_order;
use emerald::backends::headless::{is_atlas, scripted};
use emerald::backends::save_web::SaveSlot;
use emerald::backends::songs::Songs;
use emerald::game::map::{RealmGraph, OVERWORLD};
use emerald::types::Rgba;

#[test]
fn a_song_is_fetched_once() {
    let mut s = Songs::new();
    assert_eq!(s.want(None), None);
    assert_eq!(s.want(Some("MUS_ROUTE101")), Some("assets/music/mus_route101.bin".to_string()));
    assert_eq!(s.want(Some("MUS_ROUTE101")), None, "it is on its way");
    s.arrived();
    assert_eq!(s.want(Some("MUS_ROUTE101")), None, "it plays");
    assert_eq!(s.want(Some("MUS_SURF")), Some("assets/music/mus_surf.bin".to_string()));
    assert_eq!(s.want_named("mus_cycling".to_string()), Some("assets/music/mus_cycling.bin".to_string()));
    s.arrived();
    assert_eq!(s.current, Some("mus_cycling".to_string()));
    s.arrived();
    assert_eq!(s.current, Some("mus_cycling".to_string()), "nothing was on its way");
}

fn pack(name: &str) -> Vec<u8> {
    MusicPack {
        samples: vec![],
        waves: vec![],
        keysplits: vec![],
        voicegroups: vec![],
        songs: vec![SongData {
            name: name.into(),
            voicegroup: 0,
            master_volume: 127,
            reverb: 0,
            division: 24,
            tempos: vec![(0, 500000)],
            loop_start: None,
            loop_end: None,
            tracks: vec![vec![]],
        }],
    }
    .to_bytes()
}

#[test]
fn the_mixer_is_built_at_the_first_pull() {
    let mut slot = AudioSlot::new();
    slot.init(Some(pack("se_door")));
    slot.tend(Some("se_door"));
    slot.tend(None);
    slot.set_music(pack("mus_a"));
    assert!(slot.mixer.is_none());
    assert!(slot.prepare(48000));
    let m = slot.mixer.as_ref().unwrap();
    assert_eq!(m.sample_rate, 48000);
    assert!(m.music.as_ref().unwrap().playing());
    assert!(m.sfx.as_ref().unwrap().playing());
    assert!(slot.pending_sfx.is_empty());
    assert!(slot.song_pack.is_none());
    assert!(slot.prepare(44100));
    assert_eq!(slot.mixer.as_ref().unwrap().sample_rate, 48000);

    let mut bad = AudioSlot::new();
    bad.init(Some(b"NOTMAGIC".to_vec()));
    assert!(!bad.prepare(48000));
    assert!(bad.prepare(48000), "without the effects");
}

#[test]
fn a_stored_save_comes_back_once() {
    let mut s = SaveSlot::new();
    assert_eq!(s.save_len(), 0);
    s.publish(vec![1, 2, 3]);
    assert_eq!(s.save_len(), 3);
    assert_eq!(s.take_restore(), None);
    s.restore_buffer(2);
    assert_eq!(s.take_restore(), None, "not committed");
    s.restore[0] = 7;
    s.restore_commit();
    assert_eq!(s.take_restore(), Some(vec![7, 0]));
    assert_eq!(s.take_restore(), None);
}

#[test]
fn draws_keep_their_order_within_a_layer() {
    assert_eq!(draw_order(&vec![20, 0, 10, 0, 20, -1]), vec![5, 1, 3, 2, 0, 4]);
    assert!(draw_order(&vec![]).is_empty());
}

#[test]
fn the_script_walks_and_zooms() {
    let early = scripted(119);
    assert!(early.right && early.zoom_out && !early.down && !early.zoom_in);
    let late = scripted(120);
    assert!(late.down && late.zoom_in && !late.right && !late.zoom_out);
    assert!(is_atlas(&[0; 16], 2, 2));
    assert!(!is_atlas(&[0; 15], 2, 2));
}

#[test]
fn pixels_mix() {
    let white = Rgba { r: 255, g: 255, b: 255, a: 255 };
    assert_eq!(mix([1, 2, 3, 4], [9, 9, 9, 0], white), [1, 2, 3, 4]);
    assert_eq!(mix([1, 2, 3, 4], [9, 8, 7, 255], white), [9, 8, 7, 255]);
    let half = Rgba { r: 255, g: 0, b: 128, a: 128 };
    assert_eq!(mix([100, 100, 100, 255], [200, 200, 200, 255], half), [149, 49, 99, 255]);
}

#[test]
fn the_small_world_has_no_animated_door() {
    assert_eq!(first_gate(&RealmGraph::synthetic(), OVERWORLD), None);
}
