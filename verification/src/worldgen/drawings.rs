//! What the readers of pictures, fonts, doors and behaviors make of what they
//! read.

use vstd::prelude::*;
use crate::files::Files;
use crate::codec::Wire;
use crate::game::data::TilesetData;
use crate::game::player;
use crate::game::player::Facing;
use crate::text;
use crate::worldgen::art;
use crate::worldgen::behaviors;
use crate::worldgen::doors;
use crate::worldgen::extract;
use crate::worldgen::font;
use crate::worldgen::font::Code;
use crate::worldgen::graphics;
use crate::worldgen::graphics::{PictureModel, Rgb};
use crate::worldgen::tilesets;
use crate::worldgen::tilesets::Def;

verus! {

// ---- pictures -------------------------------------------------------------------

/// The pixels of a byte, the leftmost highest, make up the byte: four of them at
/// two bits, two at four, one at eight.
pub proof fn pixels_make_up_their_bytes(p: PictureModel, k: int, y: int)
    requires
        0 <= k,
    ensures
        ({
            let b = p.bytes[y * p.line + k] as int;
            &&& p.depth == 2 ==> 64 * graphics::index_at(p, 4 * k, y) + 16 * graphics::index_at(
                p,
                4 * k + 1,
                y,
            ) + 4 * graphics::index_at(p, 4 * k + 2, y) + graphics::index_at(p, 4 * k + 3, y) == b
                && graphics::index_at(p, 4 * k + 1, y) < 4 && graphics::index_at(p, 4 * k + 2, y)
                < 4 && graphics::index_at(p, 4 * k + 3, y) < 4
            &&& p.depth == 4 ==> 16 * graphics::index_at(p, 2 * k, y) + graphics::index_at(
                p,
                2 * k + 1,
                y,
            ) == b && graphics::index_at(p, 2 * k + 1, y) < 16
            &&& p.depth == 8 ==> graphics::index_at(p, k, y) == b
        }),
{
    assert(4 * k / 4 == k && (4 * k + 1) / 4 == k && (4 * k + 2) / 4 == k && (4 * k + 3) / 4 == k);
    assert(4 * k % 4 == 0 && (4 * k + 1) % 4 == 1 && (4 * k + 2) % 4 == 2 && (4 * k + 3) % 4 == 3);
    assert(2 * k / 2 == k && (2 * k + 1) / 2 == k && 2 * k % 2 == 0 && (2 * k + 1) % 2 == 1);
}

/// The pixels of a picture stand row by row.
pub proof fn pixels_stand_row_by_row(p: PictureModel, x: int, y: int)
    requires
        0 <= x < p.width,
        0 <= y < p.height,
    ensures
        graphics::indices(p).len() == p.width * p.height,
        0 <= y * p.width + x < graphics::indices(p).len(),
        graphics::indices(p)[y * p.width + x] == graphics::index_at(p, x, y),
{
    crate::game::map::lemma_place(x, y, p.width as int, p.height as int);
    crate::game::map::lemma_row(y, x, p.width as int);
}

/// A color line says red, green and blue.
pub proof fn a_color_line_says_red_green_and_blue(line: Seq<char>, r: int, g: int, b: int)
    requires
        text::words(line).len() >= 3,
        text::number(text::words(line)[0], 10, 255) == Some(r),
        text::number(text::words(line)[1], 10, 255) == Some(g),
        text::number(text::words(line)[2], 10, 255) == Some(b),
        0 <= r <= 255,
        0 <= g <= 255,
        0 <= b <= 255,
    ensures
        graphics::color_of(line) matches Some(c) && c.r == r && c.g == g && c.b == b,
{
}

/// Behind the three lines of its head, a palette file has a color to a line, in
/// order.
pub proof fn a_palette_has_a_color_to_a_line(ls: Seq<Seq<char>>, n: int, k: int)
    requires
        3 <= n <= ls.len(),
        forall|i: int| 3 <= i < n ==> graphics::color_of(#[trigger] ls[i]) is Some,
    ensures
        graphics::colors_of(ls, n).len() == n - 3,
        0 <= k < n - 3 ==> Some(graphics::colors_of(ls, n)[k]) == graphics::color_of(ls[k + 3]),
    decreases n,
{
    if n > 3 {
        a_palette_has_a_color_to_a_line(ls, n - 1, k);
        assert(graphics::color_of(ls[n - 1]) is Some);
    }
}

/// A line that is no color is passed over.
pub proof fn what_is_no_color_is_passed_over(ls: Seq<Seq<char>>, n: int)
    requires
        3 < n <= ls.len(),
        graphics::color_of(ls[n - 1]) is None,
    ensures
        graphics::colors_of(ls, n) == graphics::colors_of(ls, n - 1),
{
}

/// The palettes of a tileset stand sixteen colors apart: color `k` of palette `i`
/// in its own place, solid but for the first of each; a palette without a file
/// is clear.
pub proof fn palettes_stand_sixteen_apart(
    files: Seq<Option<Seq<char>>>,
    n: int,
    i: int,
    k: int,
)
    requires
        0 <= n <= files.len(),
        n <= 16,
        forall|j: int|
            0 <= j < n ==> ((#[trigger] files[j]) matches Some(f) ==> graphics::jasc(f).len()
                <= 16),
        0 <= i < n,
        0 <= k < 16,
    ensures
        graphics::palettes_of(files, n) matches Some(p) && p.len() == 256 && match files[i] {
            Some(f) => if k < graphics::jasc(f).len() {
                p[16 * i + k] == seq![
                    graphics::jasc(f)[k].r,
                    graphics::jasc(f)[k].g,
                    graphics::jasc(f)[k].b,
                    if k == 0 {
                        0u8
                    } else {
                        255u8
                    },
                ]
            } else {
                p[16 * i + k] == seq![0u8, 0u8, 0u8, 0u8]
            },
            None => p[16 * i + k] == seq![0u8, 0u8, 0u8, 0u8],
        },
    decreases n,
{
    lemma_palettes_ahead(files, n - 1, 16 * i + k);
    if i < n - 1 {
        palettes_stand_sixteen_apart(files, n - 1, i, k);
    }
}

proof fn lemma_palettes_ahead(files: Seq<Option<Seq<char>>>, n: int, at: int)
    requires
        0 <= n <= files.len(),
        n <= 16,
        forall|j: int|
            0 <= j < n ==> ((#[trigger] files[j]) matches Some(f) ==> graphics::jasc(f).len()
                <= 16),
    ensures
        graphics::palettes_of(files, n) is Some,
        graphics::palettes_of(files, n)->0.len() == 256,
        16 * n <= at < 256 ==> graphics::palettes_of(files, n)->0[at] == seq![0u8, 0u8, 0u8, 0u8],
    decreases n,
{
    if n > 0 {
        lemma_palettes_ahead(files, n - 1, at);
    }
}

/// A pixel of a sheet has the red, green and blue of its color, and is solid but
/// where its index is 0.
pub proof fn a_sheet_has_the_colors_of_its_palette(pixels: Seq<u8>, pal: Seq<Rgb>, i: int)
    requires
        0 <= i < pixels.len(),
    ensures
        ({
            let s = graphics::sheet_bytes(pixels, pal);
            let c = pal[pixels[i] as int];
            &&& s.len() == 4 * pixels.len()
            &&& s[4 * i] == c.r && s[4 * i + 1] == c.g && s[4 * i + 2] == c.b
            &&& s[4 * i + 3] == if pixels[i] == 0 {
                0int
            } else {
                255int
            }
        }),
{
    assert(4 * i / 4 == i && (4 * i + 1) / 4 == i && (4 * i + 2) / 4 == i && (4 * i + 3) / 4 == i);
    assert(4 * i % 4 == 0 && (4 * i + 1) % 4 == 1 && (4 * i + 2) % 4 == 2 && (4 * i + 3) % 4 == 3);
}

/// The sheet of the player has the walking frames above the running ones, and
/// every sheet is in the colors of the player's own palette.
pub proof fn walking_stands_above_running(f: Files)
    ensures
        extract::figures(f) matches Some(x) ==> {
            let pal = graphics::jasc(f.text("graphics/object_events/palettes/brendan.pal"@)->0);
            let walk = art::sheet_at(
                f,
                "graphics/object_events/pics/people/brendan/walking.png"@,
                pal,
            );
            let run = art::sheet_at(
                f,
                "graphics/object_events/pics/people/brendan/running.png"@,
                pal,
            );
            &&& walk is Some && run is Some
            &&& x.player.rgba == walk->0.rgba + run->0.rgba
            &&& x.player.h == walk->0.h + run->0.h
            &&& x.player.w == run->0.w
            &&& art::sheet_at(
                f,
                "graphics/object_events/pics/people/brendan/surfing.png"@,
                pal,
            ) == Some(x.surf_player)
            &&& art::sheet_at(f, "graphics/field_effects/pics/surf_blob.png"@, pal) == Some(
                x.surf_blob,
            )
            &&& art::sheet_at(
                f,
                "graphics/object_events/pics/people/brendan/mach_bike.png"@,
                pal,
            ) == Some(x.bike)
        },
{
}

/// Of two sheets, the rows of the one above come first.
pub proof fn the_sheet_above_comes_first(
    above: crate::game::data::Image,
    below: crate::game::data::Image,
    r: Option<crate::game::data::Image>,
    i: int,
)
    requires
        call_ensures(graphics::stack_sheets, (above, below), r),
        above.h + below.h <= u32::MAX,
    ensures
        r is Some,
        r->0.h == above.h + below.h,
        r->0.w == below.w,
        0 <= i < above.rgba@.len() ==> r->0.rgba@[i] == above.rgba@[i],
        0 <= i < below.rgba@.len() ==> r->0.rgba@[above.rgba@.len() + i] == below.rgba@[i],
{
}

/// The arrows stand by the values of their behaviors, as far as a byte counts.
pub proof fn arrows_stand_by_value(names: Vec<text::Text>, out: [u8; 256], i: int)
    requires
        call_ensures(behaviors::warp_dirs, (&names,), out),
        0 <= i < 256,
    ensures
        i < names@.len() && names@[i]@ == "SOUTH_ARROW_WARP"@ ==> out@[i] == 1,
        i < names@.len() && names@[i]@ == "NORTH_ARROW_WARP"@ ==> out@[i] == 2,
        i < names@.len() && names@[i]@ == "EAST_ARROW_WARP"@ ==> out@[i] == 3,
        i < names@.len() && names@[i]@ == "WEST_ARROW_WARP"@ ==> out@[i] == 4,
        i >= names@.len() ==> out@[i] == 0,
{
    reveal_strlit("SOUTH_ARROW_WARP");
    reveal_strlit("WATER_SOUTH_ARROW_WARP");
    reveal_strlit("NORTH_ARROW_WARP");
    reveal_strlit("EAST_ARROW_WARP");
    reveal_strlit("WEST_ARROW_WARP");
    assert("SOUTH_ARROW_WARP"@[0] == 'S');
    assert("WATER_SOUTH_ARROW_WARP"@[0] == 'W');
    assert("NORTH_ARROW_WARP"@[0] == 'N');
    assert("EAST_ARROW_WARP"@[0] == 'E');
    assert("WEST_ARROW_WARP"@[0] == 'W');
    assert("WEST_ARROW_WARP"@.len() == 15 && "WATER_SOUTH_ARROW_WARP"@.len() == 22);
}

/// A directory is the path up to its last slash, that one too.
pub proof fn a_directory_ends_at_the_last_slash(path: Seq<char>, n: int)
    requires
        0 <= n <= path.len(),
    ensures
        ({
            let d = art::directory(path, n);
            &&& d.len() <= n
            &&& d == path.take(d.len() as int)
            &&& d.len() > 0 ==> d.last() == '/'
            &&& forall|i: int| d.len() <= i < n ==> #[trigger] path[i] != '/'
        }),
    decreases n,
{
    if n > 0 && path[n - 1] != '/' {
        a_directory_ends_at_the_last_slash(path, n - 1);
    } else if n <= 0 {
        assert(art::directory(path, n) =~= path.take(0));
    }
}

// ---- behaviors ------------------------------------------------------------------

/// The arrow that a behavior waits for sends off whoever goes its way: a south
/// arrow, on land or in water, whoever goes down, a north one up, an east one
/// right, a west one left.
pub proof fn an_arrow_wants_the_way_it_names()
    ensures
        behaviors::arrow_of("SOUTH_ARROW_WARP"@) != 0,
        player::arrow_facing(behaviors::arrow_of("SOUTH_ARROW_WARP"@)) == Facing::Down,
        behaviors::arrow_of("WATER_SOUTH_ARROW_WARP"@) != 0,
        player::arrow_facing(behaviors::arrow_of("WATER_SOUTH_ARROW_WARP"@)) == Facing::Down,
        behaviors::arrow_of("NORTH_ARROW_WARP"@) != 0,
        player::arrow_facing(behaviors::arrow_of("NORTH_ARROW_WARP"@)) == Facing::Up,
        behaviors::arrow_of("EAST_ARROW_WARP"@) != 0,
        player::arrow_facing(behaviors::arrow_of("EAST_ARROW_WARP"@)) == Facing::Right,
        behaviors::arrow_of("WEST_ARROW_WARP"@) != 0,
        player::arrow_facing(behaviors::arrow_of("WEST_ARROW_WARP"@)) == Facing::Left,
{
    reveal_strlit("SOUTH_ARROW_WARP");
    reveal_strlit("WATER_SOUTH_ARROW_WARP");
    reveal_strlit("NORTH_ARROW_WARP");
    reveal_strlit("EAST_ARROW_WARP");
    reveal_strlit("WEST_ARROW_WARP");
    assert("SOUTH_ARROW_WARP"@[0] == 'S');
    assert("WATER_SOUTH_ARROW_WARP"@[0] == 'W');
    assert("NORTH_ARROW_WARP"@[0] == 'N');
    assert("EAST_ARROW_WARP"@[0] == 'E');
    assert("WEST_ARROW_WARP"@[1] == 'E');
    assert("WEST_ARROW_WARP"@.len() == 15 && "WATER_SOUTH_ARROW_WARP"@.len() == 22);
}

/// Any other behavior waits for no arrow.
pub proof fn only_arrows_are_waited_for(name: Seq<char>)
    requires
        name != "SOUTH_ARROW_WARP"@,
        name != "WATER_SOUTH_ARROW_WARP"@,
        name != "NORTH_ARROW_WARP"@,
        name != "EAST_ARROW_WARP"@,
        name != "WEST_ARROW_WARP"@,
    ensures
        behaviors::arrow_of(name) == 0,
{
}

/// The value of a behavior is how many names stand before its own.
pub proof fn behaviors_are_counted_from_zero(ls: Seq<Seq<char>>, n: int, i: int)
    requires
        0 <= i < n <= ls.len(),
        behaviors::behavior_name(ls[i]) is Some,
    ensures
        ({
            let v = behaviors::names_among(ls, i).len() as int;
            &&& v < behaviors::names_among(ls, n).len()
            &&& Some(behaviors::names_among(ls, n)[v]) == behaviors::behavior_name(ls[i])
            &&& v <= i
        }),
    decreases n,
{
    lemma_names_bound(ls, i);
    if i < n - 1 {
        behaviors_are_counted_from_zero(ls, n - 1, i);
    }
}

proof fn lemma_names_bound(ls: Seq<Seq<char>>, n: int)
    requires
        0 <= n,
    ensures
        behaviors::names_among(ls, n).len() <= n,
    decreases n,
{
    if n > 0 {
        lemma_names_bound(ls, n - 1);
    }
}

/// A behavior is surfable exactly where a line of the table marks it.
pub proof fn surfable_is_what_a_line_marks(
    ls: Seq<Seq<char>>,
    names: Seq<Seq<char>>,
    n: int,
    b: int,
)
    requires
        0 <= n <= ls.len(),
        0 <= b < 256,
    ensures
        behaviors::flags_after(ls, names, n) matches Some(f) ==> f.len() == 256 && (f[b] <==> exists|
            i: int,
        | 0 <= i < n && #[trigger] behaviors::marked(ls[i], names) == Some(b)),
    decreases n,
{
    if n > 0 {
        surfable_is_what_a_line_marks(ls, names, n - 1, b);
        if let Some(f) = behaviors::flags_after(ls, names, n) {
            let g = behaviors::flags_after(ls, names, n - 1)->0;
            if let Some(v) = behaviors::marked(ls[n - 1], names) {
                text::the_last_of_a_name_is_found(
                    names,
                    text::without_prefixes(
                        text::trimmed(
                            text::cut(text::cut(ls[n - 1], "["@)[1], "]"@)[0],
                        ),
                        "MB_"@,
                    ),
                    names.len() as int,
                );
                assert(0 <= v < 256);
            }
            if f[b] && behaviors::marked(ls[n - 1], names) != Some(b) {
                let i = choose|i: int|
                    0 <= i < n - 1 && #[trigger] behaviors::marked(ls[i], names) == Some(b);
                assert(behaviors::marked(ls[i], names) == Some(b));
            }
        }
    }
}

// ---- tilesets -------------------------------------------------------------------

proof fn lemma_last_def(ds: Seq<Def>, name: Seq<char>, n: int, k: int)
    requires
        0 <= k < n <= ds.len(),
        ds[k].name == name,
        forall|i: int| k < i < n ==> (#[trigger] ds[i]).name != name,
    ensures
        tilesets::last_def(ds, name, n) == ds[k],
    decreases n,
{
    if k < n - 1 {
        assert(ds[n - 1].name != name);
        lemma_last_def(ds, name, n - 1, k);
    }
}

/// Where two headers give themselves the same name, the last one holds for both;
/// every tileset keeps its place and its name.
pub proof fn the_last_header_of_a_name_holds(headers: Seq<char>, i: int, k: int)
    ensures
        ({
            let chunks = text::cut(headers, "const struct Tileset "@);
            let ds = tilesets::defs_among(chunks, chunks.len() as int);
            let t = tilesets::tileset_defs(headers);
            &&& t.len() == ds.len()
            &&& 0 <= i < ds.len() && 0 <= k < ds.len() && ds[k].name == ds[i].name && (forall|j: int|
                k < j < ds.len() ==> (#[trigger] ds[j]).name != ds[i].name) ==> t[i] == ds[k]
                && t[i].name == ds[i].name
        }),
{
    let chunks = text::cut(headers, "const struct Tileset "@);
    let ds = tilesets::defs_among(chunks, chunks.len() as int);
    if 0 <= i < ds.len() && 0 <= k < ds.len() && ds[k].name == ds[i].name && (forall|j: int|
        k < j < ds.len() ==> (#[trigger] ds[j]).name != ds[i].name) {
        lemma_last_def(ds, ds[i].name, ds.len() as int, k);
    }
}

// ---- the font -------------------------------------------------------------------

proof fn lemma_first_code(codes: Seq<Code>, ch: char, from: int, k: int)
    requires
        0 <= from <= k < codes.len(),
        codes[k].ch == ch,
        forall|i: int| from <= i < k ==> (#[trigger] codes[i]).ch != ch,
    ensures
        font::first_code(codes, ch, from) == Some(codes[k].code),
    decreases k - from,
{
    if from < k {
        assert(codes[from].ch != ch);
        lemma_first_code(codes, ch, from + 1, k);
    }
}

/// A character has the first code that the map gives it; the blank is always
/// the first of the sheet.
pub proof fn a_character_has_its_first_code(codes: Seq<Code>, ch: char, k: int)
    ensures
        font::code_for(codes, ' ') == Some(0usize),
        ch != ' ' && 0 <= k < codes.len() && codes[k].ch == ch && (forall|i: int|
            0 <= i < k ==> (#[trigger] codes[i]).ch != ch) ==> font::code_for(codes, ch) == Some(
            codes[k].code,
        ),
        ch != ' ' && (forall|i: int| 0 <= i < codes.len() ==> (#[trigger] codes[i]).ch != ch)
            ==> font::code_for(codes, ch) is None,
{
    if ch != ' ' && 0 <= k < codes.len() && codes[k].ch == ch && (forall|i: int|
        0 <= i < k ==> (#[trigger] codes[i]).ch != ch) {
        lemma_first_code(codes, ch, 0, k);
    }
    if ch != ' ' && (forall|i: int| 0 <= i < codes.len() ==> (#[trigger] codes[i]).ch != ch) {
        lemma_no_code(codes, ch, 0);
    }
}

proof fn lemma_no_code(codes: Seq<Code>, ch: char, from: int)
    requires
        0 <= from,
        forall|i: int| 0 <= i < codes.len() ==> (#[trigger] codes[i]).ch != ch,
    ensures
        font::first_code(codes, ch, from) is None,
    decreases codes.len() - from,
{
    if from < codes.len() {
        assert(codes[from].ch != ch);
        lemma_no_code(codes, ch, from + 1);
    }
}

/// A pixel of the strip is that of its character's glyph in the sheet, whose
/// cells of sixteen pixels stand side by side and then below each other; its
/// first color is the text, its second the shadow, and nothing else shows. The
/// last cell is solid white.
pub proof fn the_strip_shows_the_glyphs_in_order(
    codes: Seq<Code>,
    sheet: Seq<u8>,
    w: int,
    slot: int,
    x: int,
    y: int,
    code: int,
)
    requires
        0 <= slot < 96,
        0 <= x < 16,
        0 <= y < 16,
        16 <= w,
        slot < 95 ==> (font::code_for(codes, (slot + 32) as u32 as char) matches Some(c) && c
            == code),
    ensures
        ({
            let s = font::strip(codes, sheet, w);
            let at = 4 * (1536 * y + 16 * slot + x);
            let v = sheet[(16 * (code / (w / 16)) + y) * w + 16 * (code % (w / 16)) + x];
            &&& s.len() == 98304
            &&& slot == 95 ==> s[at] == 255 && s[at + 1] == 255 && s[at + 2] == 255 && s[at + 3]
                == 255
            &&& slot < 95 && v == 1 ==> s[at] == 96 && s[at + 1] == 96 && s[at + 2] == 104 && s[at
                + 3] == 255
            &&& slot < 95 && v == 2 ==> s[at] == 208 && s[at + 1] == 208 && s[at + 2] == 216 && s[at
                + 3] == 255
            &&& slot < 95 && v != 1 && v != 2 ==> s[at] == 0 && s[at + 1] == 0 && s[at + 2] == 0
                && s[at + 3] == 0
        }),
{
    let at = 4 * (1536 * y + 16 * slot + x);
    assert(at / 6144 == y && (at + 1) / 6144 == y && (at + 2) / 6144 == y && (at + 3) / 6144 == y);
    assert(at / 64 == 96 * y + slot && (at + 1) / 64 == 96 * y + slot && (at + 2) / 64 == 96 * y
        + slot && (at + 3) / 64 == 96 * y + slot);
    assert((96 * y + slot) % 96 == slot);
    assert(at / 4 == 1536 * y + 16 * slot + x && (at + 1) / 4 == at / 4 && (at + 2) / 4 == at / 4
        && (at + 3) / 4 == at / 4);
    assert((1536 * y + 16 * slot + x) % 16 == x);
    assert(at % 4 == 0 && (at + 1) % 4 == 1 && (at + 2) % 4 == 2 && (at + 3) % 4 == 3);
    let cols = w / 16;
    assert(code / cols * 16 == 16 * (code / cols) && code % cols * 16 == 16 * (code % cols));
}

/// A character that the map does not know is not drawn and has no width; one that
/// it knows is as wide as the table says, by no less than 3, and 6 past the end
/// of the table. The solid cell is 16 wide.
pub proof fn the_strip_has_the_widths_of_the_table(codes: Seq<Code>, widths: Seq<u8>, slot: int)
    requires
        0 <= slot < 96,
    ensures
        ({
            let v = font::strip_widths(codes, widths);
            let c = font::code_for(codes, (slot + 32) as u32 as char);
            &&& v.len() == 96
            &&& slot == 95 ==> v[slot] == 16
            &&& slot < 95 && c is None ==> v[slot] == 0
            &&& slot < 95 && c is Some && c->0 >= widths.len() ==> v[slot] == 6
            &&& slot < 95 && c is Some && c->0 < widths.len() && widths[c->0 as int] >= 3 ==> v[slot]
                == widths[c->0 as int]
            &&& slot < 95 && c is Some && c->0 < widths.len() && widths[c->0 as int] < 3 ==> v[slot]
                == 3
        }),
{
}

// ---- doors ----------------------------------------------------------------------

/// A pixel of a door has its color from the palette that the slot of its own tile
/// names, two tiles to a row of a frame: the first six of the primary tileset
/// even where the door is of a secondary one, the others of the door's own. What
/// has index 0 is clear.
pub proof fn a_door_has_the_colors_of_its_slots(
    pixels: Seq<u8>,
    slots: Seq<u64>,
    general: TilesetData,
    door: TilesetData,
    frame: int,
    x: int,
    y: int,
    channel: int,
)
    requires
        0 <= frame < 3,
        0 <= x < 16,
        0 <= y < 32,
        0 <= channel < 4,
        pixels.len() >= 1536,
        x / 8 + 2 * (y / 8) < slots.len(),
        doors::is_colored(pixels, slots),
    ensures
        ({
            let i = 16 * (32 * frame + y) + x;
            let slot = slots[x / 8 + 2 * (y / 8)] as int;
            let byte = doors::frame_byte(pixels, slots, general, door, 4 * i + channel);
            &&& pixels[i] == 0 ==> byte == 0
            &&& pixels[i] != 0 && slot < 6 && door.is_secondary ==> byte
                == general.palettes[16 * slot + pixels[i]][channel]
            &&& pixels[i] != 0 && !(slot < 6 && door.is_secondary) ==> byte == door.palettes[16
                * slot + pixels[i]][channel]
        }),
{
    let i = 16 * (32 * frame + y) + x;
    assert((4 * i + channel) / 4 == i && (4 * i + channel) % 4 == channel);
    assert(i % 16 == x && i / 16 == 32 * frame + y && (32 * frame + y) % 32 == y);
    assert(y / 8 * 2 == 2 * (y / 8));
}

/// Past the end of its list a tile has the first slot.
pub proof fn tiles_past_the_list_have_the_first_slot(slots: Seq<u64>, x: int, y: int)
    requires
        0 <= x < 16,
        0 <= y < 32,
        x / 8 + 2 * (y / 8) >= slots.len(),
    ensures
        doors::slot_at(slots, 16 * y + x) == 0,
{
    let i = 16 * y + x;
    assert(i % 16 == x && i / 16 == y && y % 32 == y);
    assert(y / 8 * 2 == 2 * (y / 8));
}

/// A line of the table of doors names, in this order, its metatile by a label,
/// whose first word is that of its tileset, its sound, its width, its tiles and
/// its slots; it is a door where it is one tile wide and all of them are known,
/// each the last of its name.
pub proof fn a_door_line_names_its_parts(
    line: Seq<char>,
    rest: Seq<char>,
    s: doors::Sources,
    f: Seq<Seq<char>>,
    label: int,
    set: int,
    file: int,
    slots: int,
)
    requires
        text::trimmed(line) == "{METATILE_"@ + rest,
        f == text::cut(text::without_suffixes(rest, "},"@), ","@),
        f.len() >= 5,
        is_last(s.labels.names, text::trimmed(f[0]), label),
        is_last(s.tilesets, "gTileset_"@ + text::cut(text::trimmed(f[0]), "_"@)[0], set),
        is_last(s.files.names, text::trimmed(f[3]), file),
        is_last(s.palettes.names, text::trimmed(f[4]), slots),
        s.tilesets.len() <= 65536,
    ensures
        text::trimmed(f[2]) == "1"@ ==> (doors::door_of(line, s) matches Some(d) && d.tileset == set
            && d.metatile == s.labels.values[label] && d.path == s.files.values[file] && d.slots
            == s.palettes.values[slots]),
        text::trimmed(f[2]) != "1"@ ==> doors::door_of(line, s) is None,
{
    reveal_strlit("{METATILE_");
    let l = text::trimmed(line);
    assert(l.subrange(0, 10) =~= "{METATILE_"@);
    assert(l.skip(10) =~= rest);
    lemma_is_last(s.labels.names, text::trimmed(f[0]), label);
    lemma_is_last(s.tilesets, "gTileset_"@ + text::cut(text::trimmed(f[0]), "_"@)[0], set);
    lemma_is_last(s.files.names, text::trimmed(f[3]), file);
    lemma_is_last(s.palettes.names, text::trimmed(f[4]), slots);
}

/// Whether the last of a name in a list stands at a place.
pub open spec fn is_last(names: Seq<Seq<char>>, name: Seq<char>, i: int) -> bool {
    &&& 0 <= i < names.len()
    &&& names[i] == name
    &&& forall|k: int| i < k < names.len() ==> #[trigger] names[k] != name
}

proof fn lemma_is_last(names: Seq<Seq<char>>, name: Seq<char>, i: int)
    requires
        is_last(names, name, i),
    ensures
        text::last_named(names, name, names.len() as int) == Some(i),
{
    text::the_last_of_a_name_is_found(names, name, names.len() as int);
}

/// A label of a metatile is its name and its number, which is in hexadecimal
/// digits.
pub proof fn a_label_line_says_name_and_number(line: Seq<char>, rest: Seq<char>, v: int)
    requires
        text::trimmed(line) == "#define METATILE_"@ + rest,
        text::words(rest).len() >= 2,
        text::number(text::without_prefixes(text::words(rest)[1], "0x"@), 16, 65535) == Some(v),
        0 <= v <= 65535,
    ensures
        doors::label_of(line) matches Some((name, n)) && name == text::words(rest)[0] && n == v,
{
    reveal_strlit("#define METATILE_");
    let l = text::trimmed(line);
    assert(l.subrange(0, 17) =~= "#define METATILE_"@);
    assert(l.skip(17) =~= rest);
}

/// The doors of a table stand in the order of their lines; behind its end none
/// counts.
pub proof fn doors_stand_in_order_up_to_the_end(
    ls: Seq<Seq<char>>,
    s: doors::Sources,
    n: int,
    i: int,
)
    requires
        0 <= i < n <= ls.len(),
    ensures
        (forall|k: int| 0 <= k <= i ==> !#[trigger] doors::ends_table(ls[k])) && doors::door_of(
            ls[i],
            s,
        ) is Some ==> ({
            let k = doors::doors_among(ls, s, i).len() as int;
            &&& k < doors::doors_among(ls, s, n).len()
            &&& Some(doors::doors_among(ls, s, n)[k]) == doors::door_of(ls[i], s)
        }),
        doors::ends_table(ls[i]) ==> doors::doors_among(ls, s, n) == doors::doors_among(ls, s, i),
    decreases n,
{
    if i < n - 1 {
        doors_stand_in_order_up_to_the_end(ls, s, n - 1, i);
        if doors::ends_table(ls[i]) {
            assert(exists|k: int| 0 <= k < n && doors::ends_table(#[trigger] ls[k]));
        }
    } else {
        if doors::ends_table(ls[i]) {
            assert(exists|k: int| 0 <= k < n && doors::ends_table(#[trigger] ls[k]));
        }
        if (forall|k: int| 0 <= k <= i ==> !#[trigger] doors::ends_table(ls[k])) {
            assert(!exists|k: int| 0 <= k < n && doors::ends_table(#[trigger] ls[k])) by {
                if exists|k: int| 0 <= k < n && doors::ends_table(#[trigger] ls[k]) {
                    let k = choose|k: int| 0 <= k < n && doors::ends_table(#[trigger] ls[k]);
                    assert(!doors::ends_table(ls[k]));
                }
            }
        }
    }
}

/// A name has the value that was given it last.
pub proof fn a_name_has_its_last_value<T>(t: doors::Named<T>, name: Seq<char>, v: T)
    requires
        t.names.len() == t.values.len(),
    ensures
        ({
            let u = doors::with_entry(t, Some((name, v)));
            &&& doors::looked_up(u.names, u.values, name) == Some(v)
            &&& forall|other: Seq<char>|
                other != name ==> #[trigger] doors::looked_up(u.names, u.values, other)
                    == doors::looked_up(t.names, t.values, other)
        }),
        doors::with_entry(t, None) == t,
{
    let u = doors::with_entry(t, Some((name, v)));
    text::the_last_of_a_name_is_found(u.names, name, u.names.len() as int);
    assert(u.names[t.names.len() as int] == name);
    assert forall|other: Seq<char>| other != name implies #[trigger] doors::looked_up(
        u.names,
        u.values,
        other,
    ) == doors::looked_up(t.names, t.values, other) by {
        text::the_last_of_a_name_is_found(u.names, other, u.names.len() as int);
        text::the_last_of_a_name_is_found(t.names, other, t.names.len() as int);
        match text::last_named(t.names, other, t.names.len() as int) {
            Some(a) => {
                assert(u.names[a] == other);
                match text::last_named(u.names, other, u.names.len() as int) {
                    Some(b) => {
                        assert(b < t.names.len());
                        assert(u.names[b] == t.names[b]);
                        if a < b {
                            assert(t.names[b] != other);
                        } else if b < a {
                            assert(u.names[a] != other);
                        }
                    },
                    None => {
                        assert(u.names[a] != other);
                    },
                }
            },
            None => {
                match text::last_named(u.names, other, u.names.len() as int) {
                    Some(b) => {
                        assert(b < t.names.len());
                        assert(u.names[b] == t.names[b]);
                    },
                    None => {},
                }
            },
        }
    }
}

/// The door of a pack has the colors of its picture: of the general tileset for
/// the first six slots where its own is a secondary one, and of its own
/// otherwise.
pub proof fn a_door_of_a_pack_has_the_colors_of_its_picture(
    d: crate::game::data::DoorData,
    a: art::DoorArt,
    ts: Seq<TilesetData>,
    general: u16,
    frame: int,
    x: int,
    y: int,
    channel: int,
)
    requires
        art::is_door(d, a, ts, Some(general)),
        0 <= frame < 3,
        0 <= x < 16,
        0 <= y < 32,
        0 <= channel < 4,
        graphics::indices(a.picture).len() >= 1536,
        x / 8 + 2 * (y / 8) < a.door.slots.len(),
        doors::is_colored(graphics::indices(a.picture), a.door.slots),
    ensures
        ({
            let i = 16 * (32 * frame + y) + x;
            let v = graphics::indices(a.picture)[i];
            let slot = a.door.slots[x / 8 + 2 * (y / 8)] as int;
            let byte = d.frames.rgba@[4 * i + channel];
            let own = ts[a.door.tileset as int];
            &&& d.tileset == a.door.tileset && d.metatile == a.door.metatile
            &&& d.frames.w == 16 && d.frames.h == 96 && d.frames.rgba@.len() == 6144
            &&& v == 0 ==> byte == 0
            &&& v != 0 && slot < 6 && own.is_secondary ==> byte
                == ts[general as int].palettes[16 * slot + v][channel]
            &&& v != 0 && !(slot < 6 && own.is_secondary) ==> byte == own.palettes[16 * slot
                + v][channel]
        }),
{
    let i = 16 * (32 * frame + y) + x;
    assert(0 <= 4 * i + channel < 6144);
    a_door_has_the_colors_of_its_slots(
        graphics::indices(a.picture),
        a.door.slots,
        ts[general as int],
        ts[a.door.tileset as int],
        frame,
        x,
        y,
        channel,
    );
}

// ---- files and packs ----------------------------------------------------------------

/// Palette `p` of a directory is in the file of its two digits.
pub proof fn palettes_are_in_the_files_of_their_digits(dir: Seq<char>, p: int)
    requires
        0 <= p < 16,
    ensures
        ({
            let path = art::palette_path(dir, p);
            let n = dir.len() as int;
            &&& path.len() == n + 6
            &&& path.take(n) == dir
            &&& '0' <= path[n] <= '9' && '0' <= path[n + 1] <= '9'
            &&& 10 * (path[n] as int - 48) + (path[n + 1] as int - 48) == p
            &&& path[n + 2] == '.' && path[n + 3] == 'p' && path[n + 4] == 'a' && path[n + 5] == 'l'
        }),
{
    reveal_strlit(".pal");
    let path = art::palette_path(dir, p);
    assert(path.take(dir.len() as int) =~= dir);
    let n = dir.len() as int;
    assert(path[n] == art::digit(p / 10) && path[n + 1] == art::digit(p % 10));
}

/// A row of a picture takes as many bytes as its pixels have bits, rounded up;
/// only pictures of indices will do, at two, four or eight bits.
pub proof fn a_row_takes_the_bytes_of_its_pixels(p: PictureModel)
    requires
        p.height > 0,
    ensures
        graphics::is_indexed(p) ==> p.color == 3 && (p.depth == 2 || p.depth == 4 || p.depth == 8),
        graphics::is_indexed(p) ==> graphics::row_bytes(p) == (p.width * p.depth + 7) / 8,
        p.color == 3 && (p.depth == 2 || p.depth == 4 || p.depth == 8) && (p.height - 1) * p.line
            + (p.width * p.depth + 7) / 8 <= p.bytes.len() ==> graphics::is_indexed(p),
{
    assert(p.width * 2 + 7 == 2 * (p.width + 3) + 1);
    if p.depth == 2 {
        assert(p.width * p.depth == 2 * p.width) by (nonlinear_arith)
            requires
                p.depth == 2,
        ;
    } else if p.depth == 4 {
        assert(p.width * p.depth == 4 * p.width) by (nonlinear_arith)
            requires
                p.depth == 4,
        ;
    } else if p.depth == 8 {
        assert(p.width * p.depth == 8 * p.width) by (nonlinear_arith)
            requires
                p.depth == 8,
        ;
    }
}

/// A tileset of a pack has the name of its header, and the words of its two
/// tables, the lower byte first.
pub proof fn a_tileset_is_what_its_files_say(t: TilesetData, d: Def, a: art::Art, k: int)
    requires
        art::is_tileset(t, d, a),
        0 <= k,
    ensures
        t.name@ == d.name,
        t.is_secondary == d.is_secondary,
        t.metatiles@.len() == a.metatiles.len() / 2,
        t.attributes@.len() == a.attributes.len() / 2,
        2 * k + 1 < a.metatiles.len() ==> t.metatiles@[k] == a.metatiles[2 * k] + 256
            * a.metatiles[2 * k + 1],
        2 * k + 1 < a.attributes.len() ==> t.attributes@[k] == a.attributes[2 * k] + 256
            * a.attributes[2 * k + 1],
        forall|i: int, c: int|
            #![trigger t.palettes@[i]@[c]]
            0 <= i < 256 && 0 <= c < 4 ==> t.palettes@[i]@[c] == a.palettes[i][c],
{
    reveal(crate::codec::from_le16);
    let m = a.metatiles.skip(2 * k);
    let n = a.attributes.skip(2 * k);
    if 2 * k + 1 < a.metatiles.len() {
        assert(m[0] == a.metatiles[2 * k] && m[1] == a.metatiles[2 * k + 1]);
    }
    if 2 * k + 1 < a.attributes.len() {
        assert(n[0] == a.attributes[2 * k] && n[1] == a.attributes[2 * k + 1]);
    }
}

/// The pack of a source tree has the sheets of the player, the font and the rules
/// of its behaviors, each from its own file.
pub proof fn a_world_pack_is_what_the_files_say(
    p: crate::game::data::WorldPack,
    f: Files,
    i: int,
)
    requires
        extract::plan_of(f) is Some,
        extract::is_world(p, extract::plan_of(f)->0),
        0 <= i < 256,
    ensures
        ({
            let pal = graphics::jasc(f.text("graphics/object_events/palettes/brendan.pal"@)->0);
            let names = behaviors::behaviors(
                f.text("include/constants/metatile_behaviors.h"@)->0,
            );
            &&& art::sheet_at(
                f,
                "graphics/object_events/pics/people/brendan/surfing.png"@,
                pal,
            ) == Some(p.surf_player.model())
            &&& art::sheet_at(f, "graphics/field_effects/pics/surf_blob.png"@, pal) == Some(
                p.surf_blob.model(),
            )
            &&& art::sheet_at(
                f,
                "graphics/object_events/pics/people/brendan/mach_bike.png"@,
                pal,
            ) == Some(p.bike.model())
            &&& art::letters(f) == Some((p.font.model(), p.font_widths@))
            &&& i < names.len() ==> p.warp_dir@[i] == behaviors::arrow_of(names[i])
            &&& i >= names.len() ==> p.warp_dir@[i] == 0
        }),
{
    let plan = extract::plan_of(f)->0;
    walking_stands_above_running(f);
    assert(p.warp_dir@[i] == if i < plan.behaviors.len() {
        behaviors::arrow_of(plan.behaviors[i])
    } else {
        0
    });
}

/// A header names its tileset and, by their heads, its tiles, its palettes, its
/// metatiles and their attributes; it is a secondary one where it says so.
pub proof fn a_header_names_its_parts(chunk: Seq<char>)
    ensures
        tilesets::def_of(chunk) matches Some(d) ==> {
            let body = match text::cut_once(chunk, "};"@) {
                Some((b, _)) => b,
                None => chunk,
            };
            &&& d.name == text::words(chunk)[0]
            &&& tilesets::field(body, ".tiles = "@) == Some(d.tiles)
            &&& tilesets::field(body, ".palettes = "@) == Some(d.palettes)
            &&& tilesets::field(body, ".metatiles = "@) == Some(d.metatiles)
            &&& tilesets::field(body, ".metatileAttributes = "@) == Some(d.attributes)
            &&& d.is_secondary <==> tilesets::field(body, ".isSecondary = "@) == Some("TRUE"@)
        },
{
}

} // verus!
