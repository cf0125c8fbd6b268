//! The whole extraction: from the files of a source tree to the world pack.

use vstd::prelude::*;
use crate::files::Files;
use crate::game::data::{DoorData, Image, ImageModel, TilesetData, WorldPack};
use crate::text;
use crate::text::{append, chars_of, Text};
use crate::worldgen::art;
use crate::worldgen::art::{
    read_doors, read_font, read_sheet, read_stacked, read_tilesets, Art, DoorArt,
};
use crate::worldgen::behaviors;
use crate::worldgen::behaviors::{parse_behaviors, surfable_mask, warp_dirs};
use crate::worldgen::doors;
use crate::worldgen::doors::parse_doors;
use crate::worldgen::graphics;
use crate::worldgen::graphics::parse_jasc;
use crate::worldgen::land;
use crate::worldgen::land::{lay_out, read_layouts, read_maps, Kept};
use crate::worldgen::layouts;
use crate::worldgen::maps;
use crate::worldgen::maps::RawMapModel;
use crate::worldgen::stitch;
use crate::worldgen::tilesets;
use crate::worldgen::tilesets::{parse_tilesets, Def, TilesetDef};

verus! {

// ---- what the files say --------------------------------------------------

/// The sources that bind the symbols of graphics to paths. The second file may
/// be missing.
pub open spec fn bindings(f: Files) -> Option<Seq<char>> {
    match f.text("src/data/tilesets/graphics.h"@) {
        None => None,
        Some(a) => Some(
            a + match f.text("src/graphics.c"@) {
                Some(b) => b,
                None => seq![],
            },
        ),
    }
}

/// The tilesets and their files; nothing where there are none.
pub open spec fn ground(f: Files) -> Option<(Seq<Def>, Seq<Art>)> {
    match (
        f.text("src/data/tilesets/headers.h"@),
        bindings(f),
        f.text("src/data/tilesets/metatiles.h"@),
    ) {
        (Some(headers), Some(gfx), Some(meta)) => {
            let defs = tilesets::tileset_defs(headers);
            match art::arts_of(f, gfx, meta, defs, defs.len() as int) {
                Some(arts) => if defs.len() > 0 {
                    Some((defs, arts))
                } else {
                    None
                },
                None => None,
            }
        },
        _ => None,
    }
}

pub open spec fn def_names(defs: Seq<Def>) -> Seq<Seq<char>> {
    Seq::new(defs.len(), |i: int| defs[i].name)
}

/// The sheets of the player.
#[verifier::ext_equal]
pub struct Figures {
    pub player: ImageModel,
    pub surf_player: ImageModel,
    pub surf_blob: ImageModel,
    pub bike: ImageModel,
}

/// The sheets of the player, all in the player's own palette: walking above
/// running, surfing, the blob, and the bike.
pub open spec fn figures(f: Files) -> Option<Figures> {
    match f.text("graphics/object_events/palettes/brendan.pal"@) {
        None => None,
        Some(t) => {
            let pal = graphics::jasc(t);
            match (
                art::stacked(
                    art::sheet_at(
                        f,
                        "graphics/object_events/pics/people/brendan/walking.png"@,
                        pal,
                    ),
                    art::sheet_at(
                        f,
                        "graphics/object_events/pics/people/brendan/running.png"@,
                        pal,
                    ),
                ),
                art::sheet_at(f, "graphics/object_events/pics/people/brendan/surfing.png"@, pal),
                art::sheet_at(f, "graphics/field_effects/pics/surf_blob.png"@, pal),
                art::sheet_at(f, "graphics/object_events/pics/people/brendan/mach_bike.png"@, pal),
            ) {
                (Some(player), Some(surf_player), Some(surf_blob), Some(bike)) => Some(
                    Figures { player, surf_player, surf_blob, bike },
                ),
                _ => None,
            }
        },
    }
}

/// The doors and their pictures.
pub open spec fn gates(f: Files, names: Seq<Seq<char>>) -> Option<Seq<DoorArt>> {
    match (f.text("include/constants/metatile_labels.h"@), f.text("src/field_door.c"@)) {
        (Some(labels), Some(source)) => {
            let ds = doors::doors_of(labels, source, names);
            art::door_arts(f, ds, ds.len() as int)
        },
        _ => None,
    }
}

/// The behaviors, and which of them are surfable.
pub open spec fn marks(f: Files) -> Option<(Seq<Seq<char>>, Seq<bool>)> {
    match (
        f.text("include/constants/metatile_behaviors.h"@),
        f.text("src/metatile_behavior.c"@),
    ) {
        (Some(header), Some(source)) => {
            let names = behaviors::behaviors(header);
            match behaviors::surfable_flags(source, names) {
                Some(flags) => Some((names, flags)),
                None => None,
            }
        },
        _ => None,
    }
}

/// What the files say of the world.
pub struct Plan {
    pub defs: Seq<Def>,
    pub arts: Seq<Art>,
    pub kept: Seq<Kept>,
    pub raws: Seq<RawMapModel>,
    pub figures: Figures,
    pub font: ImageModel,
    pub widths: Seq<u8>,
    pub doors: Seq<DoorArt>,
    pub behaviors: Seq<Seq<char>>,
    pub surfable: Seq<bool>,
}

/// What the files say of the world; nothing where one that is needed is
/// missing or faulty.
pub open spec fn plan_of(f: Files) -> Option<Plan> {
    match ground(f) {
        None => None,
        Some((defs, arts)) => match land::kept_layouts(f, def_names(defs)) {
            None => None,
            Some(kept) => match (
                land::maps_in(f, land::layout_ids(kept)),
                figures(f),
                art::letters(f),
                gates(f, def_names(defs)),
                marks(f),
            ) {
                (
                    Some(raws),
                    Some(figures),
                    Some((font, widths)),
                    Some(doors),
                    Some((behaviors, surfable)),
                ) => Some(
                    Plan {
                        defs,
                        arts,
                        kept,
                        raws,
                        figures,
                        font,
                        widths,
                        doors,
                        behaviors,
                        surfable,
                    },
                ),
                _ => None,
            },
        },
    }
}

/// Whether a pack is what the files say.
pub open spec fn is_world(p: WorldPack, plan: Plan) -> bool {
    &&& art::are_tilesets(p.tilesets@, plan.defs, plan.arts)
    &&& p.pairs@ == land::pairs_of(plan.kept, plan.kept.len() as int)
    &&& land::are_layouts(p.layouts@, plan.kept)
    &&& land::can_be_laid(plan.raws, p.layouts@)
    &&& land::are_laid(p.realms@, p.start, plan.raws, p.layouts@)
    &&& p.player.model() == plan.figures.player
    &&& p.surf_player.model() == plan.figures.surf_player
    &&& p.surf_blob.model() == plan.figures.surf_blob
    &&& p.bike.model() == plan.figures.bike
    &&& p.font.model() == plan.font
    &&& p.font_widths@ == plan.widths
    &&& art::are_doors(
        p.doors@,
        plan.doors,
        p.tilesets@,
        layouts::tileset_number(def_names(plan.defs), "gTileset_General"@),
    )
    &&& forall|b: u8| #[trigger]
        crate::game::map::in_mask(p.surfable@, b) == plan.surfable[b as int]
    &&& forall|i: int|
        0 <= i < 256 ==> #[trigger] p.warp_dir@[i] == if i < plan.behaviors.len() {
            behaviors::arrow_of(plan.behaviors[i])
        } else {
            0
        }
}

// ---- reading them --------------------------------------------------------

fn read_bindings(f: &Files) -> (r: Option<Text>)
    requires
        f.wf(),
    ensures
        match bindings(*f) {
            None => r is None,
            Some(t) => r is Some && r->0@ == t,
        },
{
    match f.read("src/data/tilesets/graphics.h") {
        None => None,
        Some(a) => {
            let mut t = chars_of(a.as_str());
            match f.read("src/graphics.c") {
                Some(b) => append(&mut t, &chars_of(b.as_str())),
                None => {
                    assert(t@ + Seq::<char>::empty() =~= t@);
                },
            }
            Some(t)
        },
    }
}

fn read_ground(f: &Files) -> (r: Option<(Vec<TilesetDef>, Vec<TilesetData>)>)
    requires
        f.wf(),
    ensures
        match ground(*f) {
            None => r is None,
            Some((defs, arts)) => r is Some && tilesets::models((r->0).0@) == defs
                && art::are_tilesets((r->0).1@, defs, arts) && defs.len() == arts.len(),
        },
{
    let (headers, gfx, meta) = match (
        f.read("src/data/tilesets/headers.h"),
        read_bindings(f),
        f.read("src/data/tilesets/metatiles.h"),
    ) {
        (Some(h), Some(g), Some(m)) => (h, g, chars_of(m.as_str())),
        _ => return None,
    };
    let defs = parse_tilesets(headers.as_str());
    assert(tilesets::models(defs@).len() == defs@.len());
    if defs.len() == 0 {
        return None;
    }
    match read_tilesets(f, &gfx, &meta, &defs) {
        Some(ts) => {
            proof {
                lemma_arts_len(*f, gfx@, meta@, tilesets::models(defs@), defs@.len() as int);
            }
            Some((defs, ts))
        },
        None => None,
    }
}

proof fn lemma_arts_len(f: Files, gfx: Seq<char>, meta: Seq<char>, defs: Seq<Def>, n: int)
    requires
        0 <= n,
    ensures
        art::arts_of(f, gfx, meta, defs, n) matches Some(a) ==> a.len() == n,
    decreases n,
{
    if n > 0 {
        lemma_arts_len(f, gfx, meta, defs, n - 1);
    }
}

fn names_of_defs(defs: &Vec<TilesetDef>) -> (names: Vec<Text>)
    ensures
        text::texts(names@) == def_names(tilesets::models(defs@)),
{
    let mut names: Vec<Text> = Vec::new();
    let mut n: usize = 0;
    while n < defs.len()
        invariant
            n <= defs@.len(),
            names@.len() == n,
            forall|i: int| 0 <= i < n ==> (#[trigger] names@[i])@ == defs@[i].name@,
        decreases defs.len() - n,
    {
        names.push(chars_of(defs[n].name.as_str()));
        n += 1;
    }
    assert(text::texts(names@) =~= def_names(tilesets::models(defs@)));
    names
}

/// The sheets of the player.
struct Sheets {
    player: Image,
    surf_player: Image,
    surf_blob: Image,
    bike: Image,
}

impl Sheets {
    spec fn model(&self) -> Figures {
        Figures {
            player: self.player.model(),
            surf_player: self.surf_player.model(),
            surf_blob: self.surf_blob.model(),
            bike: self.bike.model(),
        }
    }
}

fn read_figures(f: &Files) -> (r: Option<Sheets>)
    requires
        f.wf(),
    ensures
        match figures(*f) {
            None => r is None,
            Some(x) => r is Some && r->0.model() == x,
        },
{
    let pal = match f.read("graphics/object_events/palettes/brendan.pal") {
        Some(t) => parse_jasc(t.as_str()),
        None => return None,
    };
    match (
        read_stacked(
            f,
            "graphics/object_events/pics/people/brendan/walking.png",
            "graphics/object_events/pics/people/brendan/running.png",
            &pal,
        ),
        read_sheet(f, "graphics/object_events/pics/people/brendan/surfing.png", &pal),
        read_sheet(f, "graphics/field_effects/pics/surf_blob.png", &pal),
        read_sheet(f, "graphics/object_events/pics/people/brendan/mach_bike.png", &pal),
    ) {
        (Some(player), Some(surf_player), Some(surf_blob), Some(bike)) => Some(
            Sheets { player, surf_player, surf_blob, bike },
        ),
        _ => None,
    }
}

fn find_general(names: &Vec<Text>) -> (r: Option<u16>)
    ensures
        r == layouts::tileset_number(text::texts(names@), "gTileset_General"@),
{
    assert(text::texts(names@).len() == names@.len());
    match text::find_last(names, &chars_of("gTileset_General")) {
        Some(i) => Some((i % 65536) as u16),
        None => None,
    }
}

fn read_gates(f: &Files, names: &Vec<Text>, ts: &Vec<TilesetData>) -> (r: Option<Vec<DoorData>>)
    requires
        f.wf(),
        names@.len() == ts@.len(),
    ensures
        match gates(*f, text::texts(names@)) {
            None => r is None,
            Some(arts) => r is Some && art::are_doors(
                r->0@,
                arts,
                ts@,
                layouts::tileset_number(text::texts(names@), "gTileset_General"@),
            ),
        },
{
    let ghost ns = text::texts(names@);
    let (labels, source) = match (
        f.read("include/constants/metatile_labels.h"),
        f.read("src/field_door.c"),
    ) {
        (Some(l), Some(s)) => (l, s),
        _ => return None,
    };
    let found = parse_doors(labels.as_str(), source.as_str(), names);
    proof {
        art::lemma_door_tilesets(labels@, source@, ns);
        art::lemma_tileset_number(ns, "gTileset_General"@);
        let ds = doors::doors_of(labels@, source@, ns);
        assert(ds.len() == found@.len());
        assert forall|i: int| 0 <= i < found@.len() implies (#[trigger] found@[i]).tileset
            < ts@.len() by {
            assert(ds[i] == found@[i].model());
        }
    }
    read_doors(f, &found, ts, find_general(names))
}

fn read_marks(f: &Files) -> (r: Option<([u8; 32], [u8; 256])>)
    requires
        f.wf(),
    ensures
        match marks(*f) {
            None => r is None,
            Some((names, flags)) => {
                &&& r is Some
                &&& forall|b: u8| #[trigger]
                    crate::game::map::in_mask((r->0).0@, b) == flags[b as int]
                &&& forall|i: int|
                    0 <= i < 256 ==> #[trigger] (r->0).1@[i] == if i < names.len() {
                        behaviors::arrow_of(names[i])
                    } else {
                        0
                    }
            },
        },
{
    let (header, source) = match (
        f.read("include/constants/metatile_behaviors.h"),
        f.read("src/metatile_behavior.c"),
    ) {
        (Some(h), Some(s)) => (h, s),
        _ => return None,
    };
    let names = parse_behaviors(header.as_str());
    let dirs = warp_dirs(&names);
    match surfable_mask(source.as_str(), &names) {
        Some(mask) => Some((mask, dirs)),
        None => None,
    }
}

/// The world pack of a source tree. Nothing where a file that is needed is
/// missing or faulty, or where the maps cannot be laid out.
pub fn extract(f: &Files) -> (r: Option<WorldPack>)
    requires
        f.wf(),
    ensures
        match plan_of(*f) {
            None => r is None,
            Some(plan) => match r {
                Some(p) => is_world(p, plan),
                None => exists|ls: Seq<crate::game::data::LayoutData>| #[trigger]
                    land::are_layouts(ls, plan.kept) && !land::can_be_laid(plan.raws, ls),
            },
        },
{
    let (defs, ts) = match read_ground(f) {
        Some(x) => x,
        None => return None,
    };
    let names = names_of_defs(&defs);
    assert(text::texts(names@).len() == names@.len());
    let ls = match read_layouts(f, &names) {
        Some(l) => l,
        None => return None,
    };
    let ghost kept = land::kept_layouts(*f, text::texts(names@))->0;
    let ids = land::ids_of_layouts(&ls.layouts, Ghost(kept));
    match (
        read_maps(f, &ids),
        read_figures(f),
        read_font(f),
        read_gates(f, &names, &ts),
        read_marks(f),
    ) {
        (
            Some(raws),
            Some(sheets),
            Some((font, font_widths)),
            Some(doors),
            Some((surfable, warp_dir)),
        ) => {
            proof {
                land::lemma_maps_in(*f, land::layout_ids(kept));
                assert(stitch::has_layouts(maps::map_models(raws@), ls.layouts@));
            }
            match lay_out(&raws, &ls.layouts) {
                None => {
                    proof {
                        let plan = plan_of(*f)->0;
                        assert(land::are_layouts(ls.layouts@, plan.kept));
                        assert(!land::can_be_laid(plan.raws, ls.layouts@));
                    }
                    None
                },
                Some((realms, start)) => {
                    let p = WorldPack {
                        tilesets: ts,
                        pairs: ls.pairs,
                        layouts: ls.layouts,
                        realms,
                        player: sheets.player,
                        font,
                        font_widths,
                        surf_player: sheets.surf_player,
                        surf_blob: sheets.surf_blob,
                        bike: sheets.bike,
                        doors,
                        surfable,
                        warp_dir,
                        start,
                    };
                    assert(is_world(p, plan_of(*f)->0));
                    Some(p)
                },
            }
        },
        _ => {
            assert(plan_of(*f) is None);
            None
        },
    }
}

} // verus!
