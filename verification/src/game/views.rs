//! What is seen of the world, and how a state is written down.

use vstd::prelude::*;
use crate::game::bake;
use crate::game::player;
use crate::game::player::{Avatar, Facing, Motion};
use crate::game::scene;
use crate::game::scene::{Anchor, Sprite};
use crate::game::state;
use crate::game::state::{State, Transition};
use crate::game::ui;
use crate::game::ui::{Item, Piece};
use crate::game::world::{Textures, World};
use crate::types::{Flip, Rgba};

verus! {

// ---- the player -----------------------------------------------------------------

/// Where a frame of the sheets stands, by what the player does: standing down, up
/// and sideways come first, then two strides of each, in that order.
pub open spec fn frame_place(f: Facing, strides: bool, foot: int) -> int {
    if !strides {
        if f == Facing::Down {
            0
        } else if f == Facing::Up {
            1
        } else {
            2
        }
    } else if f == Facing::Down {
        3 + foot
    } else if f == Facing::Up {
        5 + foot
    } else {
        7 + foot
    }
}

/// On foot the player is one image of a tile's width and two tiles' height: the
/// frame of what it does and where it faces, in the lower row of the sheet at a
/// run, mirrored where it faces right. Levitating it stands, and hovers up a
/// pixel for every other sixteen frames.
pub proof fn a_walker_looks_as_it_moves(t: Textures, s: State)
    requires
        s.player.avatar == Avatar::Walking,
    ensures
        ({
            let v = scene::player_sprites(t, s);
            let strides = !s.levitate && player::shows_foot(s.player.motion);
            let runs = !s.levitate && player::runs(s.player.motion);
            &&& v.len() == 1
            &&& v[0].tex == t.player
            &&& v[0].src.x == 16 * frame_place(
                s.player.facing,
                strides,
                s.player.step_loop as int % 2,
            )
            &&& v[0].src.y == if runs {
                32int
            } else {
                0int
            }
            &&& v[0].src.w == 16 && v[0].src.h == 32
            &&& v[0].anchor == Anchor::Player
            &&& v[0].left == 0 && v[0].rise == 0 && v[0].tiles_w == 1 && v[0].tiles_h == 2
            &&& v[0].layer == 10
            &&& v[0].flip == if s.player.facing == Facing::Right {
                Flip::H
            } else {
                Flip::Straight
            }
            &&& v[0].bob == if s.levitate && s.ticks as int / 16 % 2 == 1 {
                -1int
            } else {
                0int
            }
        }),
{
}

/// On the bike the player is one image of two tiles by two, of the frames of a
/// walker, in the one row of the bike's sheet.
pub proof fn a_biker_looks_as_it_moves(t: Textures, s: State)
    requires
        s.player.avatar is Bike,
    ensures
        ({
            let v = scene::player_sprites(t, s);
            let strides = !s.levitate && player::shows_foot(s.player.motion);
            &&& v.len() == 1
            &&& v[0].tex == t.bike
            &&& v[0].src.x == 32 * frame_place(
                s.player.facing,
                strides,
                s.player.step_loop as int % 2,
            )
            &&& v[0].src.y == 0 && v[0].src.w == 32 && v[0].src.h == 32
            &&& v[0].anchor == Anchor::Player
            &&& v[0].left == 8 && v[0].rise == 0 && v[0].tiles_w == 2 && v[0].tiles_h == 2
            &&& v[0].layer == 10
            &&& v[0].flip == if s.player.facing == Facing::Right {
                Flip::H
            } else {
                Flip::Straight
            }
            &&& v[0].bob == if s.levitate && s.ticks as int / 16 % 2 == 1 {
                -1int
            } else {
                0int
            }
        }),
{
}

/// On the water the rider sits on the blob, a layer above it and six pixels up,
/// both facing the same way and bobbing down together every other sixteen
/// frames; the rider's frames are every other one of its sheet.
pub proof fn a_surfer_sits_on_its_blob(t: Textures, s: State)
    requires
        s.player.avatar == Avatar::Surfing,
    ensures
        ({
            let v = scene::player_sprites(t, s);
            let (blob, rider) = (v[0], v[1]);
            &&& v.len() == 2
            &&& blob.tex == t.surf_blob && rider.tex == t.surf_player
            &&& blob.src.x == 32 * frame_place(s.player.facing, false, 0)
            &&& rider.src.x == 64 * frame_place(s.player.facing, false, 0)
            &&& blob.src.y == 0 && rider.src.y == 0
            &&& blob.src.w == 32 && blob.src.h == 32 && rider.src.w == 32 && rider.src.h == 32
            &&& blob.layer == 9 && rider.layer == 10
            &&& blob.rise == 0 && rider.rise == 6
            &&& blob.left == 8 && rider.left == 8
            &&& blob.tiles_w == 2 && blob.tiles_h == 2 && rider.tiles_w == 2 && rider.tiles_h == 2
            &&& blob.anchor == Anchor::Player && rider.anchor == Anchor::Player
            &&& blob.bob == rider.bob
            &&& blob.bob == if s.ticks as int / 16 % 2 == 1 {
                1int
            } else {
                0int
            }
            &&& blob.flip == rider.flip
            &&& blob.flip == if s.player.facing == Facing::Right {
                Flip::H
            } else {
                Flip::Straight
            }
        }),
{
}

/// Facing right is facing left, mirrored: nothing but the flip tells them apart.
pub proof fn right_is_left_mirrored(t: Textures, s: State, u: State)
    requires
        s.player.facing == Facing::Left,
        u == (State { player: player::Player { facing: Facing::Right, ..s.player }, ..s }),
    ensures
        ({
            let a = scene::player_sprites(t, s);
            let b = scene::player_sprites(t, u);
            &&& a.len() == b.len()
            &&& forall|i: int|
                0 <= i < a.len() ==> (#[trigger] a[i]).flip == Flip::Straight && b[i] == (Sprite {
                    flip: Flip::H,
                    ..a[i]
                })
        }),
{
}

// ---- doors ----------------------------------------------------------------------

/// A door closes as it opens, backwards: what shows with so many frames to go is
/// what showed with so many frames gone.
pub proof fn a_door_closes_as_it_opens(s: State, u: State, x: i32, y: i32, t: u8)
    requires
        t < 16,
        s.transition == Some(Transition::DoorOpen { x, y, t }),
        u.transition == Some(Transition::DoorClose { x, y, t: (15 - t) as u8 }),
    ensures
        scene::door_frame(s) == scene::door_frame(u),
{
}

/// A door opens a frame every four steps: closed at first, then one frame after
/// the other, the third of which stays while the player walks through.
pub proof fn a_door_opens_frame_by_frame(s: State)
    ensures
        s.transition matches Some(Transition::DoorOpen { x, y, t }) ==> {
            &&& t < 4 ==> scene::door_frame(s) is None
            &&& 4 <= t < 8 ==> scene::door_frame(s) == Some((x, y, 0u32))
            &&& 8 <= t < 12 ==> scene::door_frame(s) == Some((x, y, 1u32))
            &&& 12 <= t < 16 ==> scene::door_frame(s) == Some((x, y, 2u32))
        },
        s.transition matches Some(Transition::DoorWait { x, y }) ==> scene::door_frame(s) == Some(
            (x, y, 2u32),
        ),
        s.transition matches Some(Transition::FadeOut { door, .. }) ==> scene::door_frame(s)
            == if door {
            Some((s.player.x, s.player.y, 2u32))
        } else {
            None
        },
        s.transition matches Some(Transition::ExitWalk { door_xy: Some((x, y)) })
            ==> scene::door_frame(s) == Some((x, y, 2u32)),
        s.transition matches Some(Transition::FadeIn { .. }) ==> scene::door_frame(s) is None,
        s.transition is None ==> scene::door_frame(s) is None,
{
}

/// A door in progress is drawn over its tile and the one above it, under the
/// player, from its own sheet, one frame below the other.
pub proof fn a_door_is_drawn_over_its_tile(w: World, x: i32, y: i32, frame: u32, d: u16)
    requires
        scene::door_frame(w.curr) == Some((x, y, frame)),
        w.graph.door_on(w.curr.realm as int, x as int, y as int) == Some(d),
        frame < 3,
        y > i32::MIN,
    ensures
        ({
            let v = scene::door_sprites(w);
            &&& v.len() == 1
            &&& v[0].tex == w.tex.doors@[d as int]
            &&& v[0].src.x == 0 && v[0].src.y == 32 * frame && v[0].src.w == 16 && v[0].src.h == 32
            &&& v[0].anchor == (Anchor::Tile { x, y: (y - 1) as i32 })
            &&& v[0].tiles_w == 1 && v[0].tiles_h == 2
            &&& v[0].layer == 8 && v[0].flip == Flip::Straight
            &&& v[0].left == 0 && v[0].rise == 0 && v[0].bob == 0
        }),
{
}

// ---- tiles ----------------------------------------------------------------------

proof fn lemma_row_shows(w: World, x0: int, x1: int, y: int, x: int) -> (i: int)
    requires
        x0 <= x < x1,
    ensures
        0 <= i,
        i + scene::tile_sprites(w, x, y).len() <= scene::row_sprites(w, x0, x1, y).len(),
        scene::row_sprites(w, x0, x1, y).subrange(
            i,
            i + scene::tile_sprites(w, x, y).len(),
        ) == scene::tile_sprites(w, x, y),
    decreases x1 - x0,
{
    let before = scene::row_sprites(w, x0, x1 - 1, y);
    let last = scene::tile_sprites(w, x1 - 1, y);
    let all = scene::row_sprites(w, x0, x1, y);
    assert(all == before + last);
    if x == x1 - 1 {
        assert(all.subrange(before.len() as int, all.len() as int) =~= last);
        before.len() as int
    } else {
        let i = lemma_row_shows(w, x0, x1 - 1, y, x);
        let n = scene::tile_sprites(w, x, y).len();
        assert(all.subrange(i, i + n) =~= before.subrange(i, i + n));
        i
    }
}

proof fn lemma_area_shows(w: World, x0: int, x1: int, y0: int, y1: int, x: int, y: int) -> (i: int)
    requires
        x0 <= x < x1,
        y0 <= y < y1,
    ensures
        0 <= i,
        i + scene::tile_sprites(w, x, y).len() <= scene::area_sprites(w, x0, x1, y0, y1).len(),
        scene::area_sprites(w, x0, x1, y0, y1).subrange(
            i,
            i + scene::tile_sprites(w, x, y).len(),
        ) == scene::tile_sprites(w, x, y),
    decreases y1 - y0,
{
    let before = scene::area_sprites(w, x0, x1, y0, y1 - 1);
    let last = scene::row_sprites(w, x0, x1, y1 - 1);
    let all = scene::area_sprites(w, x0, x1, y0, y1);
    assert(all == before + last);
    let n = scene::tile_sprites(w, x, y).len();
    if y == y1 - 1 {
        let i = lemma_row_shows(w, x0, x1, y, x);
        assert(all.subrange(before.len() + i, before.len() + i + n) =~= last.subrange(i, i + n));
        before.len() + i
    } else {
        let i = lemma_area_shows(w, x0, x1, y0, y1 - 1, x, y);
        assert(all.subrange(i, i + n) =~= before.subrange(i, i + n));
        i
    }
}

/// A scene shows every tile of its window, what is drawn of the tile in one
/// piece, then the player, and the door last.
pub proof fn a_scene_shows_every_tile_of_its_window(
    w: World,
    x0: int,
    y0: int,
    x1: int,
    y1: int,
    x: int,
    y: int,
)
    requires
        x0 <= x < x1,
        y0 <= y < y1,
    ensures
        ({
            let all = scene::scene_sprites(w, x0, y0, x1, y1);
            let n = scene::tile_sprites(w, x, y).len();
            let p = scene::player_sprites(w.tex, w.curr);
            let d = scene::door_sprites(w);
            let rest = all.len() - p.len() - d.len();
            &&& exists|i: int|
                0 <= i && i + n <= rest && #[trigger] all.subrange(i, i + n) == scene::tile_sprites(
                    w,
                    x,
                    y,
                )
            &&& all.subrange(rest, rest + p.len()) == p
            &&& all.subrange(rest + p.len(), all.len() as int) == d
        }),
{
    let all = scene::scene_sprites(w, x0, y0, x1, y1);
    let tiles = scene::area_sprites(w, x0, x1, y0, y1);
    let n = scene::tile_sprites(w, x, y).len();
    let p = scene::player_sprites(w.tex, w.curr);
    let d = scene::door_sprites(w);
    let rest = all.len() - p.len() - d.len();
    let i = lemma_area_shows(w, x0, x1, y0, y1, x, y);
    assert(rest == tiles.len());
    assert(all.subrange(i, i + n) =~= tiles.subrange(i, i + n));
    assert(all.subrange(rest, rest + p.len()) =~= p);
    assert(all.subrange(rest + p.len(), all.len() as int) =~= d);
}

/// A fade is told with its direction and how far it is.
pub proof fn a_fade_is_told(s: State)
    ensures
        s.transition matches Some(Transition::FadeOut { t, .. }) ==> scene::fade_of(s) == Some(
            (true, t),
        ),
        s.transition matches Some(Transition::FadeIn { t, .. }) ==> scene::fade_of(s) == Some(
            (false, t),
        ),
        !(s.transition matches Some(Transition::FadeOut { .. })) && !(s.transition matches Some(
            Transition::FadeIn { .. },
        )) ==> scene::fade_of(s) is None,
{
}

/// A metatile is drawn bottom layer first, under everything; its top layer goes
/// over the player, at 20, or stays under the doors, the blob and the player, at
/// 1. A layer without a picture is not drawn.
pub proof fn layers_go_under_or_over_the_player(
    t: Textures,
    d: bake::MetatileDraw,
    x: int,
    y: int,
)
    requires
        i32::MIN <= x <= i32::MAX,
        i32::MIN <= y <= i32::MAX,
    ensures
        ({
            let v = scene::metatile_sprites(t, d, x, y);
            let n: int = if d.bottom.0 == bake::NO_CELL {
                0
            } else {
                1
            };
            let k: int = if d.top.0 == bake::NO_CELL {
                0
            } else {
                1
            };
            &&& v.len() == n + k
            &&& n == 1 ==> v[0].layer == 0 && v[0].anchor == (Anchor::Tile {
                x: x as i32,
                y: y as i32,
            })
            &&& k == 1 ==> v[n].anchor == (Anchor::Tile { x: x as i32, y: y as i32 })
            &&& k == 1 && d.top_above_player ==> v[n].layer == 20
            &&& k == 1 && !d.top_above_player ==> v[n].layer == 1
        }),
{
}

/// The rows of the menu say what they do, in capitals.
pub proof fn the_menu_is_in_capitals()
    ensures
        scene::levitate_on() == seq![
            'L' as u8, 'E' as u8, 'V' as u8, 'I' as u8, 'T' as u8, 'A' as u8, 'T' as u8, 'E' as u8,
            ':' as u8, ' ' as u8, 'O' as u8, 'N' as u8,
        ],
        scene::levitate_off() == seq![
            'L' as u8, 'E' as u8, 'V' as u8, 'I' as u8, 'T' as u8, 'A' as u8, 'T' as u8, 'E' as u8,
            ':' as u8, ' ' as u8, 'O' as u8, 'F' as u8, 'F' as u8,
        ],
{
    assert(scene::levitate_on() =~= seq![
        'L' as u8, 'E' as u8, 'V' as u8, 'I' as u8, 'T' as u8, 'A' as u8, 'T' as u8, 'E' as u8,
        ':' as u8, ' ' as u8, 'O' as u8, 'N' as u8,
    ]);
    assert(scene::levitate_off() =~= seq![
        'L' as u8, 'E' as u8, 'V' as u8, 'I' as u8, 'T' as u8, 'A' as u8, 'T' as u8, 'E' as u8,
        ':' as u8, ' ' as u8, 'O' as u8, 'F' as u8, 'F' as u8,
    ]);
}

// ---- texts and menus ---------------------------------------------------------------

/// A character moves the pen by the width of its glyph, by no less than 3, and by
/// 6 where the font has none; the glyphs begin with the blank.
pub proof fn a_character_moves_the_pen(widths: Seq<u8>, ch: u8)
    ensures
        ch < 32 ==> ui::advance_of(widths, ch) == 6,
        ch - 32 >= widths.len() ==> ui::advance_of(widths, ch) == 6,
        32 <= ch < 32 + widths.len() && widths[ch - 32] >= 3 ==> ui::advance_of(widths, ch)
            == widths[ch - 32],
        32 <= ch < 32 + widths.len() && widths[ch - 32] < 3 ==> ui::advance_of(widths, ch) == 3,
{
}

/// A text is as wide as its parts, and what is written behind a text begins where
/// the text ends; one character is its own glyph where it has one, and a blank
/// draws nothing.
pub proof fn texts_are_written_one_behind_the_other(
    widths: Seq<u8>,
    a: Seq<u8>,
    b: Seq<u8>,
    ch: u8,
    x: int,
    y: int,
    tint: Rgba,
)
    ensures
        ui::width_of(widths, a + b) == ui::width_of(widths, a) + ui::width_of(widths, b),
        ui::text_pieces(widths, a + b, x, y, tint) == ui::text_pieces(widths, a, x, y, tint)
            + ui::text_pieces(widths, b, x + ui::width_of(widths, a), y, tint),
        ui::width_of(widths, seq![ch]) == ui::advance_of(widths, ch),
        33 <= ch <= 126 ==> ui::text_pieces(widths, seq![ch], x, y, tint) == seq![
            Piece::Glyph { slot: (ch - 32) as u8, x: x as i32, y: y as i32, tint },
        ],
        ch <= 32 || ch > 126 ==> ui::text_pieces(widths, seq![ch], x, y, tint).len() == 0,
    decreases b.len(),
{
    let one = seq![ch];
    assert(one.drop_last() =~= Seq::<u8>::empty());
    assert(ui::width_of(widths, one.drop_last()) == 0);
    assert(ui::text_pieces(widths, one.drop_last(), x, y, tint).len() == 0);
    if 33 <= ch <= 126 {
        assert(ui::text_pieces(widths, one, x, y, tint) =~= seq![
            Piece::Glyph { slot: (ch - 32) as u8, x: x as i32, y: y as i32, tint },
        ]);
    }
    if b.len() == 0 {
        assert(a + b =~= a);
        assert(ui::text_pieces(widths, a, x, y, tint) + ui::text_pieces(
            widths,
            b,
            x + ui::width_of(widths, a),
            y,
            tint,
        ) =~= ui::text_pieces(widths, a, x, y, tint));
    } else {
        texts_are_written_one_behind_the_other(widths, a, b.drop_last(), ch, x, y, tint);
        assert((a + b).drop_last() =~= a + b.drop_last());
        assert((a + b).last() == b.last());
        let w = ui::width_of(widths, a);
        let at = x + w;
        assert(x + ui::width_of(widths, a + b.drop_last()) == at + ui::width_of(
            widths,
            b.drop_last(),
        ));
        assert(ui::text_pieces(widths, a + b, x, y, tint) =~= ui::text_pieces(widths, a, x, y, tint)
            + ui::text_pieces(widths, b, at, y, tint));
    }
}

/// The cursor is a triangle that points right: five columns, side by side, each a
/// pixel shorter at both ends than the one before it, the last a single pixel.
pub proof fn the_cursor_points_right(x: int, y: int, i: int)
    requires
        0 <= i < 5,
        0 <= x <= 1_000_000,
        0 <= y <= 1_000_000,
    ensures
        ui::cursor_pieces(x, y).len() == 5,
        ui::cursor_pieces(x, y)[i] matches Piece::Solid { x: cx, y: cy, w, h, tint } && cx == x + i
            && w == 1 && cy - y == i && (y + 9) - (cy + h) == i && tint == (Rgba {
            r: 96,
            g: 96,
            b: 104,
            a: 255,
        }),
{
}

/// A row of the menu stands sixteen pixels below the one before it, its text ten
/// pixels in, white where it can be chosen and faint where not, and the cursor
/// before the chosen one.
pub proof fn rows_stand_one_below_the_other(
    widths: Seq<u8>,
    items: Seq<Item>,
    selected: u8,
    n: int,
)
    requires
        0 <= n < items.len(),
    ensures
        ui::row_pieces(widths, items, selected, 0).len() == 0,
        ui::row_pieces(widths, items, selected, n + 1) == ui::row_pieces(
            widths,
            items,
            selected,
            n,
        ) + ui::text_pieces(
            widths,
            items[n].label@,
            10,
            3 + 16 * n,
            Rgba {
                r: 255,
                g: 255,
                b: 255,
                a: if items[n].enabled {
                    255
                } else {
                    96
                },
            },
        ) + if n == selected {
            ui::cursor_pieces(3, 6 + 16 * n)
        } else {
            seq![]
        },
{
    let tint = Rgba {
        r: 255,
        g: 255,
        b: 255,
        a: if items[n].enabled {
            255
        } else {
            96
        },
    };
    assert((n + 1 - 1) * 16 == 16 * n);
}

proof fn lemma_widest(widths: Seq<u8>, items: Seq<Item>, n: int)
    requires
        0 <= n <= items.len(),
    ensures
        forall|k: int|
            0 <= k < n ==> ui::width_of(widths, (#[trigger] items[k]).label@) <= ui::widest(
                widths,
                items,
                n,
            ),
        n > 0 && ui::widest(widths, items, n) > 0 ==> exists|k: int|
            0 <= k < n && ui::width_of(widths, (#[trigger] items[k]).label@) == ui::widest(
                widths,
                items,
                n,
            ),
        n == 0 ==> ui::widest(widths, items, n) == 0,
    decreases n,
{
    if n > 0 {
        lemma_widest(widths, items, n - 1);
        if ui::widest(widths, items, n) > ui::widest(widths, items, n - 1) {
            assert(ui::width_of(widths, items[n - 1].label@) == ui::widest(widths, items, n));
        } else if ui::widest(widths, items, n) > 0 {
            if n - 1 > 0 {
                let k = choose|k: int|
                    0 <= k < n - 1 && ui::width_of(widths, (#[trigger] items[k]).label@)
                        == ui::widest(widths, items, n - 1);
                assert(ui::width_of(widths, items[k].label@) == ui::widest(widths, items, n));
            }
        }
    }
}

/// The menu is a white window with a border of one pixel, as wide as its widest
/// label with ten pixels before it and six behind, as high as its rows and six
/// pixels, and its rows stand on it.
pub proof fn the_menu_fits_its_labels(widths: Seq<u8>, items: Seq<Item>, selected: u8, k: int)
    requires
        0 <= k < items.len(),
        ui::layable(widths, items),
    ensures
        ({
            let v = ui::menu_pieces(widths, items, selected);
            let w = ui::menu_width(widths, items);
            let rows = ui::row_pieces(widths, items, selected, items.len() as int);
            &&& 16 + ui::width_of(widths, items[k].label@) <= w
            &&& w > 16 ==> exists|i: int|
                0 <= i < items.len() && 16 + ui::width_of(widths, (#[trigger] items[i]).label@) == w
            &&& v.len() == 2 + rows.len()
            &&& v.subrange(2, v.len() as int) == rows
            &&& v[0] == (Piece::Solid {
                x: -1i32,
                y: -1i32,
                w: (w + 2) as u32,
                h: (16 * items.len() + 8) as u32,
                tint: Rgba { r: 88, g: 96, b: 120, a: 255 },
            })
            &&& v[1] == (Piece::Solid {
                x: 0i32,
                y: 0i32,
                w: w as u32,
                h: (16 * items.len() + 6) as u32,
                tint: Rgba { r: 255, g: 255, b: 255, a: 255 },
            })
        }),
{
    lemma_widest(widths, items, items.len() as int);
    let v = ui::menu_pieces(widths, items, selected);
    let rows = ui::row_pieces(widths, items, selected, items.len() as int);
    assert(v.subrange(2, v.len() as int) =~= rows);
    assert(items.len() * 16 == 16 * items.len());
    let w = ui::menu_width(widths, items);
    if w > 16 {
        let i = choose|i: int|
            0 <= i < items.len() && ui::width_of(widths, (#[trigger] items[i]).label@) == ui::widest(
                widths,
                items,
                items.len() as int,
            );
        assert(16 + ui::width_of(widths, items[i].label@) == w);
    }
}

// ---- the save ---------------------------------------------------------------------

/// The number that bytes spell, the lowest first.
pub open spec fn spelled(b: Seq<u8>, at: int) -> int {
    b[at] + 256 * b[at + 1] + 65536 * b[at + 2] + 16777216 * b[at + 3]
}

/// A number below zero is spelled as if 2 to the 32nd were added to it.
pub open spec fn unsigned(v: int) -> int {
    if v < 0 {
        v + 0x1_0000_0000
    } else {
        v
    }
}

/// A save has each part of a state in its own place.
#[verifier::rlimit(40)]
#[verifier::spinoff_prover]
pub proof fn a_save_has_its_parts_in_place(s: State)
    requires
        s.wf(),
    ensures
        ({
            let b = state::saved(s);
            let p = s.player;
            &&& b.len() == 37
            &&& b[0] as char == 'E' && b[1] as char == 'S' && b[2] == 3
            &&& b[3] + 256 * b[4] == s.realm
            &&& spelled(b, 5) == unsigned(p.x as int)
            &&& spelled(b, 9) == unsigned(p.y as int)
            &&& p.facing == Facing::Up ==> b[13] == 0
            &&& p.facing == Facing::Down ==> b[13] == 1
            &&& p.facing == Facing::Left ==> b[13] == 2
            &&& p.facing == Facing::Right ==> b[13] == 3
            &&& p.motion == Motion::Idle ==> b[14] == 0 && spelled(b, 15) == 0
            &&& p.motion is Turning ==> b[14] == 1
            &&& p.motion matches Motion::Moving { remaining_px, speed } ==> spelled(b, 15)
                == remaining_px && (speed == 1 ==> b[14] == 2) && (speed == 2 ==> b[14] == 3)
            &&& b[19] == p.step_loop
            &&& p.current_map is None ==> b[20] + 256 * b[21] == 65535
            &&& p.current_map matches Some(m) ==> b[20] + 256 * b[21] == m
            &&& spelled(b, 22) == s.cam.x && spelled(b, 26) == s.cam.y && spelled(b, 30)
                == s.cam.zoom
            &&& s.levitate ==> b[34] == 1
            &&& !s.levitate ==> b[34] == 0
            &&& p.avatar == Avatar::Walking ==> b[35] == 0
            &&& p.avatar == Avatar::Surfing ==> b[35] == 1
            &&& p.avatar matches Avatar::Bike { tier, .. } ==> b[35] % 16 == 2 + tier
            &&& b[36] % 16 == p.elevation
        }),
{
    let p = s.player;
    let b = state::saved(s);
    assert(b.len() == 37);
    lemma_save_word(s, 5, crate::codec::bits32(p.x));
    lemma_save_word(s, 9, crate::codec::bits32(p.y));
    lemma_save_word(s, 15, state::motion_code(p.motion).1);
    lemma_save_word(s, 22, s.cam.x);
    lemma_save_word(s, 26, s.cam.y);
    lemma_save_word(s, 30, s.cam.zoom);
    assert(b[3] == state::byte_of(s.realm as u32, 0) && b[4] == state::byte_of(
        s.realm as u32,
        1,
    ));
    let m = state::map_code(p.current_map);
    assert(b[20] == state::byte_of(m as u32, 0) && b[21] == state::byte_of(m as u32, 1));
    assert(b[13] == state::facing_code(p.facing));
    assert(b[14] == state::motion_code(p.motion).0);
    assert(b[35] == state::avatar_code(p.avatar));
}

proof fn lemma_save_word(s: State, at: int, v: u32)
    requires
        0 <= at <= 33,
        forall|k: int| 0 <= k < 4 ==> state::save_byte(s, at + k) == #[trigger] state::byte_of(v, k),
    ensures
        spelled(state::saved(s), at) == v,
{
    lemma_word(v);
    let b = state::saved(s);
    assert(b[at + 0] == state::byte_of(v, 0));
    assert(b[at + 1] == state::byte_of(v, 1));
    assert(b[at + 2] == state::byte_of(v, 2));
    assert(b[at + 3] == state::byte_of(v, 3));
}

/// The bytes of a word, put together again.
spec fn word_of(v: u32) -> int {
    state::byte_of(v, 0) + 256 * state::byte_of(v, 1) + 65536 * state::byte_of(v, 2) + 16777216
        * state::byte_of(v, 3)
}

proof fn lemma_word(v: u32)
    ensures
        word_of(v) == v,
{
    assert(v == v % 256 + 256 * (v / 256));
    assert(v / 256 == v / 256 % 256 + 256 * (v / 256 / 256));
    assert(v / 256 / 256 == v / 65536);
    assert(v / 65536 == v / 65536 % 256 + 256 * (v / 65536 / 256));
    assert(v / 65536 / 256 == v / 16777216);
}

} // verus!
