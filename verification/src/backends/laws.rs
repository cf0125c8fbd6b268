//! What the backends draw, play and fetch.

use vstd::prelude::*;
use crate::audio::data;
use crate::audio::data::MusicModel;
use crate::audio::engine;
use crate::audio::engine::Engine;
use crate::audio::mixer;
use crate::audio::mixer::Mixer;
use crate::backends::audio_web;
use crate::backends::audio_web::AudioSlot;
use crate::backends::blit;
use crate::backends::draw;
use crate::backends::headless;
use crate::backends::save_web;
use crate::backends::songs;
use crate::codec::Wire;
use crate::game::map::RealmGraph;
use crate::types::Rgba;

verus! {

// ---- pixels ---------------------------------------------------------------------

/// What is solid and untinted replaces what is under it; what is clear, in itself
/// or by its tint, leaves it as it is; and whatever is drawn at all is solid.
pub proof fn solid_replaces_and_clear_leaves(dst: Seq<u8>, src: Seq<u8>, tint: Rgba)
    requires
        dst.len() == 4,
        src.len() == 4,
    ensures
        src[3] == 255 && tint == (Rgba { r: 255, g: 255, b: 255, a: 255 }) ==> blit::mixed(
            dst,
            src,
            tint,
        ) == src,
        src[3] == 0 || tint.a == 0 ==> blit::mixed(dst, src, tint) == dst,
        src[3] > 0 && tint.a == 255 ==> blit::mixed(dst, src, tint)[3] == 255,
{
    if src[3] == 255 && tint == (Rgba { r: 255, g: 255, b: 255, a: 255 }) {
        assert(blit::coverage(src, tint) == 255);
        lemma_opaque(src[0] as int, dst[0] as int);
        lemma_opaque(src[1] as int, dst[1] as int);
        lemma_opaque(src[2] as int, dst[2] as int);
        assert(blit::mixed(dst, src, tint) =~= src);
    }
    if src[3] == 0 {
        assert(0 * tint.a == 0) by (nonlinear_arith);
        assert(blit::coverage(src, tint) == 0);
    }
    if tint.a == 0 {
        assert(src[3] * 0 == 0) by (nonlinear_arith);
        assert(blit::coverage(src, tint) == 0);
    }
    if src[3] > 0 && tint.a == 255 {
        assert(src[3] * 255 / 255 == src[3]);
    }
}

proof fn lemma_opaque(s: int, d: int)
    requires
        0 <= s <= 255,
        0 <= d <= 255,
    ensures
        blit::over(s, 255, d, 255) == s,
{
    assert(s * 255 / 255 == s);
    assert(d * (255 - 255) == 0) by (nonlinear_arith);
}

/// A channel that covers in part is that part of the tinted channel and the rest
/// of what is under it: no more than both, black where both are, and the more it
/// covers the less of what is under it is left.
pub proof fn what_covers_in_part_lets_the_rest_through(
    s: int,
    tint: int,
    d: int,
    cover: int,
)
    requires
        0 <= s <= 255,
        0 <= tint <= 255,
        0 <= d <= 255,
        0 <= cover <= 255,
    ensures
        0 <= blit::over(s, tint, d, cover) <= 255,
        blit::over(0, tint, d, cover) == d * (255 - cover) / 255,
        blit::over(s, 0, d, cover) == d * (255 - cover) / 255,
        blit::over(s, tint, 0, cover) == s * tint / 255 * cover / 255,
        blit::over(s, tint, d, 0) == d,
        blit::over(s, tint, d, 255) == s * tint / 255,
{
    let t = s * tint / 255;
    assert(0 <= s * tint <= 255 * 255) by (nonlinear_arith)
        requires
            0 <= s <= 255,
            0 <= tint <= 255,
    ;
    assert(0 <= t <= 255);
    assert(0 <= t * cover <= 255 * cover) by (nonlinear_arith)
        requires
            0 <= t <= 255,
            0 <= cover,
    ;
    assert(0 <= d * (255 - cover) <= 255 * (255 - cover)) by (nonlinear_arith)
        requires
            0 <= d <= 255,
            cover <= 255,
    ;
    assert(t * cover / 255 <= cover);
    assert(d * (255 - cover) / 255 <= 255 - cover);
    assert(0 * tint == 0 && s * 0 == 0 && 0 * cover == 0 && 0 * (255 - cover) == 0 && t * 0 == 0)
        by (nonlinear_arith);
    assert(d * (255 - 0) == 255 * d && t * 255 == 255 * t && d * (255 - 255) == 0) by (
    nonlinear_arith);
    assert(255 * d / 255 == d && 255 * t / 255 == t);
}

/// A part is drawn and the rest shines through: the two add up.
pub proof fn what_is_drawn_and_what_shines_through_add_up(
    s: int,
    tint: int,
    d: int,
    cover: int,
)
    ensures
        blit::over(s, tint, d, cover) == blit::over(s, tint, 0, cover) + blit::over(
            0,
            tint,
            d,
            cover,
        ),
{
    assert(0 * (255 - cover) == 0 && 0 * tint == 0 && 0 * cover == 0) by (nonlinear_arith);
}

/// A pixel covers as much as it and its tint do together, and each channel is
/// tinted by its own: white takes on the color of the tint.
pub proof fn white_takes_on_the_tint(dst: Seq<u8>, src: Seq<u8>, tint: Rgba)
    requires
        dst.len() == 4,
        src.len() == 4,
    ensures
        src[3] == 255 ==> blit::coverage(src, tint) == tint.a,
        tint.a == 255 ==> blit::coverage(src, tint) == src[3],
        255 * blit::coverage(src, tint) <= src[3] * tint.a < 255 * blit::coverage(src, tint) + 255,
        src == seq![255u8, 255u8, 255u8, 255u8] && tint.a == 255 ==> blit::mixed(dst, src, tint)
            == seq![tint.r, tint.g, tint.b, 255u8],
{
    assert(255 * tint.a / 255 == tint.a);
    assert(src[3] * 255 / 255 == src[3]);
    assert(0 <= src[3] * tint.a) by (nonlinear_arith);
    if src == seq![255u8, 255u8, 255u8, 255u8] && tint.a == 255 {
        lemma_tinted(tint.r as int, dst[0] as int);
        lemma_tinted(tint.g as int, dst[1] as int);
        lemma_tinted(tint.b as int, dst[2] as int);
        assert(blit::mixed(dst, src, tint) =~= seq![tint.r, tint.g, tint.b, 255u8]);
    }
}

proof fn lemma_tinted(t: int, d: int)
    requires
        0 <= t <= 255,
    ensures
        blit::over(255, t, d, 255) == t,
{
    assert(255 * t / 255 == t && t * 255 / 255 == t);
    assert(d * (255 - 255) == 0) by (nonlinear_arith);
}

/// Draws come by layer, and within a layer as they came: any two have an order,
/// and only one.
pub proof fn draws_come_by_layer(layers: Seq<i16>, a: int, b: int)
    ensures
        layers[a] < layers[b] ==> draw::comes_before(layers, a, b) && !draw::comes_before(
            layers,
            b,
            a,
        ),
        layers[a] == layers[b] && a < b ==> draw::comes_before(layers, a, b)
            && !draw::comes_before(layers, b, a),
        !draw::comes_before(layers, a, a),
{
}

// ---- the scripted run --------------------------------------------------------------

/// The scripted run goes right and zooms out for its first 120 ticks, then down
/// and in; nothing else is pressed.
pub proof fn the_script_goes_right_then_down(tick: u32)
    ensures
        ({
            let i = headless::script(tick);
            &&& i.right == (tick < 120) && i.zoom_out == (tick < 120)
            &&& i.down == (tick >= 120) && i.zoom_in == (tick >= 120)
            &&& !i.up && !i.left && !i.a && !i.b && !i.start && !i.select
        }),
        forall|len: int, w: u32, h: u32| #[trigger]
            headless::is_rgba(len, w, h) == (len == 4 * (w * h)),
{
    assert forall|len: int, w: u32, h: u32| #[trigger]
        headless::is_rgba(len, w, h) == (len == 4 * (w * h)) by {
        assert(w * h * 4 == 4 * (w * h)) by (nonlinear_arith);
    }
}

// ---- sounds ---------------------------------------------------------------------

/// Of the effects that wait, the last that there is a song for is the one that
/// plays.
pub proof fn the_last_effect_plays(m: MusicModel, names: Seq<String>, n: int, k: int)
    requires
        0 <= n <= names.len(),
        -1 <= k < n,
        k >= 0 ==> mixer::first_song(m, names[k]@, 0) is Some,
        forall|i: int| k < i < n ==> mixer::first_song(m, (#[trigger] names[i])@, 0) is None,
    ensures
        k >= 0 ==> audio_web::last_effect(m, names, n) == mixer::first_song(m, names[k]@, 0),
        k < 0 ==> audio_web::last_effect(m, names, n) is None,
    decreases n,
{
    if n > 0 && k < n - 1 {
        assert(mixer::first_song(m, names[n - 1]@, 0) is None);
        the_last_effect_plays(m, names, n - 1, k);
    }
}

/// An effect plays once: it never loops.
pub proof fn an_effect_plays_once(e: Engine, was: Engine, names: Seq<String>, n: int)
    requires
        audio_web::plays_last(e, was, names, n),
        audio_web::last_effect(was.pack.model(), names, n) is Some,
    ensures
        !e.looping,
        e.tick == 0,
        e.song is Some,
        e.pack.model() == was.pack.model(),
        e.rate == was.rate,
{
    assert(e.looping == e.play_state().looping && e.tick == e.play_state().tick && e.song
        == e.play_state().song);
}

/// Songs of different names have different files, all in one place.
pub proof fn songs_are_fetched_by_name(a: Seq<char>, b: Seq<char>)
    ensures
        songs::path_of(a) == "assets/music/"@ + a + ".bin"@,
        a != b ==> songs::path_of(a) != songs::path_of(b),
{
    reveal_strlit("assets/music/");
    reveal_strlit(".bin");
    let n = "assets/music/"@.len() as int;
    let pa = songs::path_of(a);
    let pb = songs::path_of(b);
    if pa == pb {
        assert(pa.len() == n + a.len() + 4 && pb.len() == n + b.len() + 4);
        assert(a =~= pa.subrange(n, n + a.len()));
        assert(b =~= pb.subrange(n, n + b.len()));
    }
}

/// A buffer at a new length keeps what it holds of it, and the rest is zero.
pub proof fn a_buffer_keeps_what_it_holds(b: Seq<u8>, n: nat, i: int)
    ensures
        save_web::resized(b, n).len() == n,
        0 <= i < n && i < b.len() ==> save_web::resized(b, n)[i] == b[i],
        b.len() <= i < n ==> save_web::resized(b, n)[i] == 0,
{
}

/// A song that waited plays from its beginning once the mixer has taken it, looped
/// where it has both its marks; without one the music stays as it was, and
/// nothing waits any more.
pub proof fn a_song_that_waited_plays(start: Mixer, was: AudioSlot, now: AudioSlot, p: MusicModel)
    requires
        audio_web::advanced(start, was, now),
    ensures
        now.mixer is Some,
        now.song_pack is None,
        now.pending_sfx@.len() == 0,
        now.mixer->0.sample_rate == start.sample_rate,
        was.song_pack is None ==> now.mixer->0.music == start.music,
        start.sfx is None ==> now.mixer->0.sfx is None,
        was.song_pack matches Some(b) ==> ((exists|rest: Seq<u8>| data::dec_music(b@) == Ok::<
            (MusicModel, Seq<u8>),
            Seq<char>,
        >((p, rest))) ==> now.mixer->0.music is Some && ({
            let e = now.mixer->0.music->0;
            &&& e.pack.model() == p
            &&& e.rate == start.sample_rate
            &&& e.song == Some(0usize)
            &&& e.tick == 0
            &&& e.looping == (p.songs[0].loop_start is Some && p.songs[0].loop_end is Some)
        })),
{
    if let Some(b) = was.song_pack {
        if exists|rest: Seq<u8>| data::dec_music(b@) == Ok::<(MusicModel, Seq<u8>), Seq<char>>(
            (p, rest),
        ) {
            let e = now.mixer->0.music->0;
            assert(e.play_state() == engine::begun(p, 0, true));
            assert(e.song == e.play_state().song && e.looping == e.play_state().looping);
            assert(e.tick == e.play_state().tick);
        }
    }
}

/// Tiles come row by row, and a gate is an animated door that leads somewhere.
pub proof fn tiles_come_row_by_row(g: RealmGraph, realm: int, x: int, y: int, a: int, b: int)
    ensures
        y < b ==> blit::sooner(x, y, a, b),
        y == b && x < a ==> blit::sooner(x, y, a, b),
        y == b && x == a ==> !blit::sooner(x, y, a, b),
        y > b ==> !blit::sooner(x, y, a, b),
        blit::is_gate(g, realm, x, y) <==> g.door_on(realm, x, y) is Some && g.realms@[realm].warp_on(
            x,
            y,
        ) is Some,
{
}

} // verus!
