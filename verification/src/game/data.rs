//! The world pack: the one data format between the extractor and the engine.
//!
//! The pack carries raw indexed graphics (4bpp tiles and palettes), not baked
//! RGBA: baking happens when the atlas is uploaded (see `bake`), so the pack
//! stays small and the backend never learns what a palette is.
//!
//! Layout: the magic `EMWORLD4`, little-endian integers, length-prefixed
//! vectors and strings.

use vstd::prelude::*;
use vstd::utf8::*;
use crate::codec;
use crate::codec::{array256, array32, read_list, same_bytes, write_list, Dec, PackError, Wire, R,
    W};

verus! {

/// The bytes `EMWORLD4`.
pub const MAGIC: [u8; 8] = [0x45, 0x4D, 0x57, 0x4F, 0x52, 0x4C, 0x44, 0x34];

/// Metatile ids 0..512 index the primary tileset, 512.. the secondary.
pub const METATILES_IN_PRIMARY: u16 = 512;

/// Tile ids 0..512 index primary tiles, 512.. secondary tiles.
pub const TILES_IN_PRIMARY: u16 = 512;

#[derive(Debug, PartialEq)]
pub struct WorldPack {
    pub tilesets: Vec<TilesetData>,
    /// Unique (primary, secondary) tileset pairings; layouts reference these.
    pub pairs: Vec<(u16, u16)>,
    pub layouts: Vec<LayoutData>,
    pub realms: Vec<RealmData>,
    /// Player sprite sheet (RGBA8), 144x64: row 0 walking (stand down/up/side,
    /// walk down x2, up x2, side x2), row 1 running in the same frame layout.
    pub player: Image,
    /// The font: one 16x16 RGBA cell per printable ASCII char (32..=126),
    /// laid out horizontally.
    pub font: Image,
    /// Advance width per glyph (same indexing as `font`).
    pub font_widths: Vec<u8>,
    /// The surfing player (192x32: 6 frames of 32x32; 0=S 1=N 2=W, E flipped).
    pub surf_player: Image,
    /// The surf blob (96x32: 3 frames of 32x32; S, N, W).
    pub surf_blob: Image,
    /// The player on the Mach bike (288x32: 9 frames of 32x32, walking layout).
    pub bike: Image,
    /// Door open animations: 3 frames of 16x32 each.
    pub doors: Vec<DoorData>,
    /// Bitmask over metatile behaviors (bit b of byte b/8 = behavior b is
    /// surfable).
    pub surfable: [u8; 32],
    /// Per-behavior warp trigger: 0 = step-on, 1..4 = arrow warp that fires
    /// only when pressing South/North/East/West while standing on it.
    pub warp_dir: [u8; 256],
    pub start: Start,
}

/// One animated door: matched by (tileset, absolute metatile id).
#[derive(Debug, PartialEq)]
pub struct DoorData {
    pub tileset: u16,
    pub metatile: u16,
    /// 16x96 RGBA: three 16x32 open-animation frames, top to bottom.
    pub frames: Image,
}

#[derive(Debug, PartialEq)]
pub struct TilesetData {
    pub name: String,
    pub is_secondary: bool,
    /// 4bpp tiles: 32 bytes per 8x8 tile, low nibble = left pixel.
    pub tiles_4bpp: Vec<u8>,
    /// 16 palettes x 16 colors, RGBA8. Color 0 is transparent. Slots 0-5 are
    /// meaningful for primary tilesets, 6-11 for secondary.
    pub palettes: [[u8; 4]; 256],
    /// 8 u16 entries per metatile: tile id | hflip<<10 | vflip<<11 | pal<<12.
    /// First 4 = bottom layer quadrants, last 4 = top layer.
    pub metatiles: Vec<u16>,
    /// One u16 per metatile: behavior bits 0..8, layer type bits 12..16
    /// (0 normal: top above sprites; 1 covered: top below; 2 split: above).
    pub attributes: Vec<u16>,
}

#[derive(Debug, PartialEq)]
pub struct LayoutData {
    pub id: String,
    pub width: u32,
    pub height: u32,
    pub pair: u16,
    /// One u16 per cell: metatile id bits 0..10, collision 10..12, elevation
    /// 12..16.
    pub blockdata: Vec<u16>,
}

/// A realm ready to expand: realm 0 is the stitched overworld (many maps),
/// the rest are single-map realms (interiors and disconnected outdoors).
#[derive(Debug, PartialEq)]
pub struct RealmData {
    pub width: u32,
    pub height: u32,
    pub maps: Vec<MapData>,
}

#[derive(Debug, PartialEq)]
pub struct MapData {
    pub id: String,
    pub music: String,
    pub layout: u16,
    /// Map origin in realm metatile coords (0,0 for single-map realms).
    pub x: i32,
    pub y: i32,
    pub warps: Vec<WarpData>,
}

/// Realm-local warp edge (coords already hold the map origin).
#[derive(Debug, Clone, Copy, PartialEq, Eq, Structural)]
pub struct WarpData {
    pub x: i32,
    pub y: i32,
    pub to_realm: u16,
    pub to_x: i32,
    pub to_y: i32,
}

#[derive(Debug, PartialEq)]
pub struct Image {
    pub rgba: Vec<u8>,
    pub w: u32,
    pub h: u32,
}

#[derive(Debug, Clone, Copy, PartialEq, Eq, Structural)]
pub struct Start {
    pub realm: u16,
    pub x: i32,
    pub y: i32,
}

// ---- images --------------------------------------------------------------

/// An image as a value.
#[verifier::ext_equal]
pub struct ImageModel {
    pub rgba: Seq<u8>,
    pub w: u32,
    pub h: u32,
}

impl ImageModel {
    /// Four bytes for each pixel.
    pub open spec fn sized(self) -> bool {
        self.rgba.len() == self.w * self.h * 4
    }

    pub open spec fn fits(self) -> bool {
        &&& self.sized()
        &&& self.rgba.len() < 0x1_0000_0000
    }
}

pub open spec fn enc_image(m: ImageModel) -> Seq<u8> {
    codec::le32(m.w) + (codec::le32(m.h) + codec::enc_bytes(m.rgba))
}

/// An image; `fault` is the message for one whose size does not match.
pub open spec fn dec_image(fault: Seq<char>, s: Seq<u8>) -> Dec<ImageModel> {
    match codec::dec_u32(s) {
        Err(e) => Err(e),
        Ok((w, s)) => match codec::dec_u32(s) {
            Err(e) => Err(e),
            Ok((h, s)) => match codec::dec_bytes(s) {
                Err(e) => Err(e),
                Ok((rgba, s)) => {
                    let m = ImageModel { rgba, w, h };
                    if m.sized() {
                        Ok((m, s))
                    } else {
                        Err(fault)
                    }
                },
            },
        },
    }
}

proof fn lemma_dec_image(fault: Seq<char>, m: ImageModel, post: Seq<u8>)
    requires
        m.fits(),
    ensures
        dec_image(fault, enc_image(m) + post) == Ok::<(ImageModel, Seq<u8>), Seq<char>>((m, post)),
{
    broadcast use codec::lemma_assoc;

    let t2 = codec::enc_bytes(m.rgba) + post;
    let t1 = codec::le32(m.h) + t2;
    codec::lemma_dec_u32(m.w, t1);
    codec::lemma_dec_u32(m.h, t2);
    codec::lemma_dec_bytes(m.rgba, post);
}

proof fn lemma_more_image(fault: Seq<char>, s: Seq<u8>, t: Seq<u8>)
    ensures
        codec::extends(dec_image(fault, s), dec_image(fault, s + t), t),
{
    if dec_image(fault, s) is Ok {
        codec::lemma_more_u32(s, t);
        let s1 = codec::dec_u32(s)->Ok_0.1;
        codec::lemma_more_u32(s1, t);
        let s2 = codec::dec_u32(s1)->Ok_0.1;
        codec::lemma_more_bytes(s2, t);
    }
}

impl Image {
    pub open spec fn model(&self) -> ImageModel {
        ImageModel { rgba: self.rgba@, w: self.w, h: self.h }
    }

    fn write(&self, w: &mut W)
        ensures
            final(w).0@ == old(w).0@ + enc_image(self.model()),
    {
        broadcast use codec::lemma_assoc;

        w.u32(self.w);
        w.u32(self.h);
        w.bytes(&self.rgba);
    }
}

/// Whether `len` is four times the product of `w` and `h`.
fn is_area(len: usize, w: u32, h: u32) -> (r: bool)
    ensures
        r == (len == w * h * 4),
{
    assert(w * h <= 0xffff_ffff * 0xffff_ffff) by (nonlinear_arith)
        requires
            w <= 0xffff_ffff,
            h <= 0xffff_ffff,
    ;
    assert(w * h >= 0) by (nonlinear_arith)
        requires
            w >= 0,
            h >= 0,
    ;
    len as u128 == (w as u64 * h as u64) as u128 * 4
}

fn read_image(r: &mut R<'_>, fault: &'static str) -> (res: Result<Image, PackError>)
    requires
        old(r).wf(),
    ensures
        final(r).wf(),
        match dec_image(fault@, old(r).rest()) {
            Ok((m, rest)) => (res matches Ok(v) && v.model() == m && final(r).rest() == rest),
            Err(m) => (res matches Err(e) && e.0@ == m),
        },
{
    let w: u32 = r.u32()?;
    let h: u32 = r.u32()?;
    let rgba = r.bytes()?;
    if !is_area(rgba.len(), w, h) {
        return Err(PackError(fault));
    }
    Ok(Image { rgba, w, h })
}

// ---- palettes ------------------------------------------------------------

/// The 256 colors of a tileset as one run of bytes.
pub open spec fn flat_palettes(p: [[u8; 4]; 256]) -> Seq<u8> {
    Seq::new(1024, |i: int| p[i / 4][i % 4])
}

fn write_palettes(p: &[[u8; 4]; 256], w: &mut W)
    ensures
        final(w).0@ == old(w).0@ + flat_palettes(*p),
{
    let ghost base = w.0@;
    let mut i: usize = 0;
    assert(w.0@ =~= base + flat_palettes(*p).take(0));
    while i < 256
        invariant
            i <= 256,
            w.0@ == base + flat_palettes(*p).take(4 * i),
        decreases 256 - i,
    {
        w.raw(p[i].as_slice());
        assert(w.0@ =~= base + flat_palettes(*p).take(4 * (i + 1)));
        i += 1;
    }
    assert(flat_palettes(*p).take(1024) =~= flat_palettes(*p));
}

fn palettes_of(s: &[u8]) -> (p: [[u8; 4]; 256])
    requires
        s@.len() == 1024,
    ensures
        flat_palettes(p) == s@,
{
    let mut p = [[0u8; 4]; 256];
    let mut i: usize = 0;
    while i < 256
        invariant
            i <= 256,
            s@.len() == 1024,
            forall|k: int| 0 <= k < 4 * i ==> #[trigger] p[k / 4][k % 4] == s@[k],
        decreases 256 - i,
    {
        p[i] = [s[4 * i], s[4 * i + 1], s[4 * i + 2], s[4 * i + 3]];
        i += 1;
    }
    assert(flat_palettes(p) =~= s@);
    p
}

// ---- items ---------------------------------------------------------------

/// A tileset as a value; the palettes are one run of bytes.
#[verifier::ext_equal]
pub struct TilesetModel {
    pub name: Seq<char>,
    pub is_secondary: bool,
    pub tiles_4bpp: Seq<u8>,
    pub palettes: Seq<u8>,
    pub metatiles: Seq<u16>,
    pub attributes: Seq<u16>,
}

/// A layout as a value.
#[verifier::ext_equal]
pub struct LayoutModel {
    pub id: Seq<char>,
    pub width: u32,
    pub height: u32,
    pub pair: u16,
    pub blockdata: Seq<u16>,
}

/// A realm as a value.
#[verifier::ext_equal]
pub struct RealmModel {
    pub width: u32,
    pub height: u32,
    pub maps: Seq<MapModel>,
}

/// A map as a value.
#[verifier::ext_equal]
pub struct MapModel {
    pub id: Seq<char>,
    pub music: Seq<char>,
    pub layout: u16,
    pub x: i32,
    pub y: i32,
    pub warps: Seq<WarpData>,
}

/// A door as a value.
#[verifier::ext_equal]
pub struct DoorModel {
    pub tileset: u16,
    pub metatile: u16,
    pub frames: ImageModel,
}

impl Wire for TilesetData {
    type M = TilesetModel;

    open spec fn model(&self) -> TilesetModel {
        TilesetModel {
            name: self.name@,
            is_secondary: self.is_secondary,
            tiles_4bpp: self.tiles_4bpp@,
            palettes: flat_palettes(self.palettes),
            metatiles: self.metatiles@,
            attributes: self.attributes@,
        }
    }

    open spec fn enc(m: TilesetModel) -> Seq<u8> {
        codec::enc_str(m.name) + (seq![codec::flag_byte(m.is_secondary)]
            + (codec::enc_bytes(m.tiles_4bpp) + (m.palettes + (codec::enc_u16s(m.metatiles)
            + codec::enc_u16s(m.attributes)))))
    }

    open spec fn dec(s: Seq<u8>) -> Dec<TilesetModel> {
        match codec::dec_str(s) {
            Err(e) => Err(e),
            Ok((name, s)) => match codec::dec_flag(s) {
                Err(e) => Err(e),
                Ok((is_secondary, s)) => match codec::dec_bytes(s) {
                    Err(e) => Err(e),
                    Ok((tiles_4bpp, s)) => match codec::dec_take(1024, s) {
                        Err(e) => Err(e),
                        Ok((palettes, s)) => match codec::dec_u16s(s) {
                            Err(e) => Err(e),
                            Ok((metatiles, s)) => match codec::dec_u16s(s) {
                                Err(e) => Err(e),
                                Ok((attributes, s)) => Ok((TilesetModel { name, is_secondary,
                                    tiles_4bpp, palettes, metatiles, attributes }, s)),
                            },
                        },
                    },
                },
            },
        }
    }

    open spec fn fits(m: TilesetModel) -> bool {
        &&& encode_utf8(m.name).len() < 0x1_0000_0000
        &&& m.tiles_4bpp.len() < 0x1_0000_0000
        &&& m.palettes.len() == 1024
        &&& m.metatiles.len() < 0x1_0000_0000
        &&& m.attributes.len() < 0x1_0000_0000
    }

    proof fn dec_enc(m: TilesetModel, post: Seq<u8>) {
        broadcast use codec::lemma_assoc;

        let t5 = codec::enc_u16s(m.attributes) + post;
        let t4 = codec::enc_u16s(m.metatiles) + t5;
        let t3 = m.palettes + t4;
        let t2 = codec::enc_bytes(m.tiles_4bpp) + t3;
        let t1 = seq![codec::flag_byte(m.is_secondary)] + t2;
        codec::lemma_dec_str(m.name, t1);
        codec::lemma_dec_flag(m.is_secondary, t2);
        codec::lemma_dec_bytes(m.tiles_4bpp, t3);
        codec::lemma_dec_take(m.palettes, t4);
        codec::lemma_dec_u16s(m.metatiles, t5);
        codec::lemma_dec_u16s(m.attributes, post);
    }

    proof fn dec_more(s: Seq<u8>, t: Seq<u8>) {
        if Self::dec(s) is Ok {
            codec::lemma_more_bytes(s, t);
            let s1 = codec::dec_str(s)->Ok_0.1;
            codec::lemma_more_u8(s1, t);
            let s2 = codec::dec_flag(s1)->Ok_0.1;
            codec::lemma_more_bytes(s2, t);
            let s3 = codec::dec_bytes(s2)->Ok_0.1;
            codec::lemma_more_take(1024, s3, t);
            let s4 = codec::dec_take(1024, s3)->Ok_0.1;
            codec::lemma_more_u16s(s4, t);
            let s5 = codec::dec_u16s(s4)->Ok_0.1;
            codec::lemma_more_u16s(s5, t);
        }
    }

    fn write(&self, w: &mut W) {
        broadcast use codec::lemma_assoc;

        w.str(&self.name);
        w.flag(self.is_secondary);
        w.bytes(&self.tiles_4bpp);
        write_palettes(&self.palettes, w);
        w.u16s(&self.metatiles);
        w.u16s(&self.attributes);
    }

    fn read(r: &mut R<'_>) -> (res: Result<TilesetData, PackError>) {
        let name = r.str()?;
        let is_secondary = r.flag()?;
        let tiles_4bpp = r.bytes()?;
        let palettes = palettes_of(r.take(1024)?);
        let metatiles = r.u16s()?;
        let attributes = r.u16s()?;
        Ok(TilesetData { name, is_secondary, tiles_4bpp, palettes, metatiles, attributes })
    }
}

impl Wire for (u16, u16) {
    type M = (u16, u16);

    open spec fn model(&self) -> (u16, u16) {
        *self
    }

    open spec fn enc(m: (u16, u16)) -> Seq<u8> {
        codec::le16(m.0) + codec::le16(m.1)
    }

    open spec fn dec(s: Seq<u8>) -> Dec<(u16, u16)> {
        match codec::dec_u16(s) {
            Err(e) => Err(e),
            Ok((a, s)) => match codec::dec_u16(s) {
                Err(e) => Err(e),
                Ok((b, s)) => Ok(((a, b), s)),
            },
        }
    }

    open spec fn fits(m: (u16, u16)) -> bool {
        true
    }

    proof fn dec_enc(m: (u16, u16), post: Seq<u8>) {
        broadcast use codec::lemma_assoc;

        codec::lemma_dec_u16(m.0, codec::le16(m.1) + post);
        codec::lemma_dec_u16(m.1, post);
    }

    proof fn dec_more(s: Seq<u8>, t: Seq<u8>) {
        if Self::dec(s) is Ok {
            codec::lemma_more_u16(s, t);
            codec::lemma_more_u16(codec::dec_u16(s)->Ok_0.1, t);
        }
    }

    fn write(&self, w: &mut W) {
        broadcast use codec::lemma_assoc;

        w.u16(self.0);
        w.u16(self.1);
    }

    fn read(r: &mut R<'_>) -> (res: Result<(u16, u16), PackError>) {
        let a: u16 = r.u16()?;
        let b: u16 = r.u16()?;
        Ok((a, b))
    }
}

impl Wire for LayoutData {
    type M = LayoutModel;

    open spec fn model(&self) -> LayoutModel {
        LayoutModel {
            id: self.id@,
            width: self.width,
            height: self.height,
            pair: self.pair,
            blockdata: self.blockdata@,
        }
    }

    open spec fn enc(m: LayoutModel) -> Seq<u8> {
        codec::enc_str(m.id) + (codec::le32(m.width) + (codec::le32(m.height)
            + (codec::le16(m.pair) + codec::enc_u16s(m.blockdata))))
    }

    open spec fn dec(s: Seq<u8>) -> Dec<LayoutModel> {
        match codec::dec_str(s) {
            Err(e) => Err(e),
            Ok((id, s)) => match codec::dec_u32(s) {
                Err(e) => Err(e),
                Ok((width, s)) => match codec::dec_u32(s) {
                    Err(e) => Err(e),
                    Ok((height, s)) => match codec::dec_u16(s) {
                        Err(e) => Err(e),
                        Ok((pair, s)) => match codec::dec_u16s(s) {
                            Err(e) => Err(e),
                            Ok((blockdata, s)) => Ok((LayoutModel { id, width, height, pair,
                                blockdata }, s)),
                        },
                    },
                },
            },
        }
    }

    open spec fn fits(m: LayoutModel) -> bool {
        &&& encode_utf8(m.id).len() < 0x1_0000_0000
        &&& m.blockdata.len() < 0x1_0000_0000
    }

    proof fn dec_enc(m: LayoutModel, post: Seq<u8>) {
        broadcast use codec::lemma_assoc;

        let t4 = codec::enc_u16s(m.blockdata) + post;
        let t3 = codec::le16(m.pair) + t4;
        let t2 = codec::le32(m.height) + t3;
        let t1 = codec::le32(m.width) + t2;
        codec::lemma_dec_str(m.id, t1);
        codec::lemma_dec_u32(m.width, t2);
        codec::lemma_dec_u32(m.height, t3);
        codec::lemma_dec_u16(m.pair, t4);
        codec::lemma_dec_u16s(m.blockdata, post);
    }

    proof fn dec_more(s: Seq<u8>, t: Seq<u8>) {
        if Self::dec(s) is Ok {
            codec::lemma_more_bytes(s, t);
            let s1 = codec::dec_str(s)->Ok_0.1;
            codec::lemma_more_u32(s1, t);
            let s2 = codec::dec_u32(s1)->Ok_0.1;
            codec::lemma_more_u32(s2, t);
            let s3 = codec::dec_u32(s2)->Ok_0.1;
            codec::lemma_more_u16(s3, t);
            let s4 = codec::dec_u16(s3)->Ok_0.1;
            codec::lemma_more_u16s(s4, t);
        }
    }

    fn write(&self, w: &mut W) {
        broadcast use codec::lemma_assoc;

        w.str(&self.id);
        w.u32(self.width);
        w.u32(self.height);
        w.u16(self.pair);
        w.u16s(&self.blockdata);
    }

    fn read(r: &mut R<'_>) -> (res: Result<LayoutData, PackError>) {
        let id = r.str()?;
        let width: u32 = r.u32()?;
        let height: u32 = r.u32()?;
        let pair: u16 = r.u16()?;
        let blockdata = r.u16s()?;
        Ok(LayoutData { id, width, height, pair, blockdata })
    }
}

impl Wire for WarpData {
    type M = WarpData;

    open spec fn model(&self) -> WarpData {
        *self
    }

    open spec fn enc(m: WarpData) -> Seq<u8> {
        codec::le32(codec::bits32(m.x)) + (codec::le32(codec::bits32(m.y))
            + (codec::le16(m.to_realm) + (codec::le32(codec::bits32(m.to_x))
            + codec::le32(codec::bits32(m.to_y)))))
    }

    open spec fn dec(s: Seq<u8>) -> Dec<WarpData> {
        match codec::dec_i32(s) {
            Err(e) => Err(e),
            Ok((x, s)) => match codec::dec_i32(s) {
                Err(e) => Err(e),
                Ok((y, s)) => match codec::dec_u16(s) {
                    Err(e) => Err(e),
                    Ok((to_realm, s)) => match codec::dec_i32(s) {
                        Err(e) => Err(e),
                        Ok((to_x, s)) => match codec::dec_i32(s) {
                            Err(e) => Err(e),
                            Ok((to_y, s)) => Ok((WarpData { x, y, to_realm, to_x, to_y }, s)),
                        },
                    },
                },
            },
        }
    }

    open spec fn fits(m: WarpData) -> bool {
        true
    }

    proof fn dec_enc(m: WarpData, post: Seq<u8>) {
        broadcast use codec::lemma_assoc;

        let t4 = codec::le32(codec::bits32(m.to_y)) + post;
        let t3 = codec::le32(codec::bits32(m.to_x)) + t4;
        let t2 = codec::le16(m.to_realm) + t3;
        let t1 = codec::le32(codec::bits32(m.y)) + t2;
        codec::lemma_dec_i32(m.x, t1);
        codec::lemma_dec_i32(m.y, t2);
        codec::lemma_dec_u16(m.to_realm, t3);
        codec::lemma_dec_i32(m.to_x, t4);
        codec::lemma_dec_i32(m.to_y, post);
    }

    proof fn dec_more(s: Seq<u8>, t: Seq<u8>) {
        if Self::dec(s) is Ok {
            codec::lemma_more_u32(s, t);
            let s1 = codec::dec_i32(s)->Ok_0.1;
            codec::lemma_more_u32(s1, t);
            let s2 = codec::dec_i32(s1)->Ok_0.1;
            codec::lemma_more_u16(s2, t);
            let s3 = codec::dec_u16(s2)->Ok_0.1;
            codec::lemma_more_u32(s3, t);
            let s4 = codec::dec_i32(s3)->Ok_0.1;
            codec::lemma_more_u32(s4, t);
        }
    }

    fn write(&self, w: &mut W) {
        broadcast use codec::lemma_assoc;

        w.i32(self.x);
        w.i32(self.y);
        w.u16(self.to_realm);
        w.i32(self.to_x);
        w.i32(self.to_y);
    }

    fn read(r: &mut R<'_>) -> (res: Result<WarpData, PackError>) {
        let x: i32 = r.i32()?;
        let y: i32 = r.i32()?;
        let to_realm: u16 = r.u16()?;
        let to_x: i32 = r.i32()?;
        let to_y: i32 = r.i32()?;
        Ok(WarpData { x, y, to_realm, to_x, to_y })
    }
}

impl Wire for MapData {
    type M = MapModel;

    open spec fn model(&self) -> MapModel {
        MapModel {
            id: self.id@,
            music: self.music@,
            layout: self.layout,
            x: self.x,
            y: self.y,
            warps: codec::models(self.warps@),
        }
    }

    open spec fn enc(m: MapModel) -> Seq<u8> {
        codec::enc_str(m.id) + (codec::enc_str(m.music) + (codec::le16(m.layout)
            + (codec::le32(codec::bits32(m.x)) + (codec::le32(codec::bits32(m.y))
            + codec::enc_list::<WarpData>(m.warps)))))
    }

    open spec fn dec(s: Seq<u8>) -> Dec<MapModel> {
        match codec::dec_str(s) {
            Err(e) => Err(e),
            Ok((id, s)) => match codec::dec_str(s) {
                Err(e) => Err(e),
                Ok((music, s)) => match codec::dec_u16(s) {
                    Err(e) => Err(e),
                    Ok((layout, s)) => match codec::dec_i32(s) {
                        Err(e) => Err(e),
                        Ok((x, s)) => match codec::dec_i32(s) {
                            Err(e) => Err(e),
                            Ok((y, s)) => match codec::dec_list::<WarpData>(s) {
                                Err(e) => Err(e),
                                Ok((warps, s)) => Ok((MapModel { id, music, layout, x, y, warps },
                                    s)),
                            },
                        },
                    },
                },
            },
        }
    }

    open spec fn fits(m: MapModel) -> bool {
        &&& encode_utf8(m.id).len() < 0x1_0000_0000
        &&& encode_utf8(m.music).len() < 0x1_0000_0000
        &&& codec::fits_list::<WarpData>(m.warps)
    }

    proof fn dec_enc(m: MapModel, post: Seq<u8>) {
        broadcast use codec::lemma_assoc;

        let t5 = codec::enc_list::<WarpData>(m.warps) + post;
        let t4 = codec::le32(codec::bits32(m.y)) + t5;
        let t3 = codec::le32(codec::bits32(m.x)) + t4;
        let t2 = codec::le16(m.layout) + t3;
        let t1 = codec::enc_str(m.music) + t2;
        codec::lemma_dec_str(m.id, t1);
        codec::lemma_dec_str(m.music, t2);
        codec::lemma_dec_u16(m.layout, t3);
        codec::lemma_dec_i32(m.x, t4);
        codec::lemma_dec_i32(m.y, t5);
        codec::lemma_dec_list::<WarpData>(m.warps, post);
    }

    proof fn dec_more(s: Seq<u8>, t: Seq<u8>) {
        if Self::dec(s) is Ok {
            codec::lemma_more_bytes(s, t);
            let s1 = codec::dec_str(s)->Ok_0.1;
            codec::lemma_more_bytes(s1, t);
            let s2 = codec::dec_str(s1)->Ok_0.1;
            codec::lemma_more_u16(s2, t);
            let s3 = codec::dec_u16(s2)->Ok_0.1;
            codec::lemma_more_u32(s3, t);
            let s4 = codec::dec_i32(s3)->Ok_0.1;
            codec::lemma_more_u32(s4, t);
            let s5 = codec::dec_i32(s4)->Ok_0.1;
            codec::lemma_more_list::<WarpData>(s5, t);
        }
    }

    fn write(&self, w: &mut W) {
        broadcast use codec::lemma_assoc;

        w.str(&self.id);
        w.str(&self.music);
        w.u16(self.layout);
        w.i32(self.x);
        w.i32(self.y);
        write_list(&self.warps, w);
    }

    fn read(r: &mut R<'_>) -> (res: Result<MapData, PackError>) {
        let id = r.str()?;
        let music = r.str()?;
        let layout: u16 = r.u16()?;
        let x: i32 = r.i32()?;
        let y: i32 = r.i32()?;
        let warps = read_list::<WarpData>(r)?;
        Ok(MapData { id, music, layout, x, y, warps })
    }
}

impl Wire for RealmData {
    type M = RealmModel;

    open spec fn model(&self) -> RealmModel {
        RealmModel {
            width: self.width,
            height: self.height,
            maps: codec::models(self.maps@),
        }
    }

    open spec fn enc(m: RealmModel) -> Seq<u8> {
        codec::le32(m.width) + (codec::le32(m.height) + codec::enc_list::<MapData>(m.maps))
    }

    open spec fn dec(s: Seq<u8>) -> Dec<RealmModel> {
        match codec::dec_u32(s) {
            Err(e) => Err(e),
            Ok((width, s)) => match codec::dec_u32(s) {
                Err(e) => Err(e),
                Ok((height, s)) => match codec::dec_list::<MapData>(s) {
                    Err(e) => Err(e),
                    Ok((maps, s)) => Ok((RealmModel { width, height, maps }, s)),
                },
            },
        }
    }

    open spec fn fits(m: RealmModel) -> bool {
        &&& codec::fits_list::<MapData>(m.maps)
    }

    proof fn dec_enc(m: RealmModel, post: Seq<u8>) {
        broadcast use codec::lemma_assoc;

        let t2 = codec::enc_list::<MapData>(m.maps) + post;
        let t1 = codec::le32(m.height) + t2;
        codec::lemma_dec_u32(m.width, t1);
        codec::lemma_dec_u32(m.height, t2);
        codec::lemma_dec_list::<MapData>(m.maps, post);
    }

    proof fn dec_more(s: Seq<u8>, t: Seq<u8>) {
        if Self::dec(s) is Ok {
            codec::lemma_more_u32(s, t);
            let s1 = codec::dec_u32(s)->Ok_0.1;
            codec::lemma_more_u32(s1, t);
            let s2 = codec::dec_u32(s1)->Ok_0.1;
            codec::lemma_more_list::<MapData>(s2, t);
        }
    }

    fn write(&self, w: &mut W) {
        broadcast use codec::lemma_assoc;

        w.u32(self.width);
        w.u32(self.height);
        write_list(&self.maps, w);
    }

    fn read(r: &mut R<'_>) -> (res: Result<RealmData, PackError>) {
        let width: u32 = r.u32()?;
        let height: u32 = r.u32()?;
        let maps = read_list::<MapData>(r)?;
        Ok(RealmData { width, height, maps })
    }
}

impl Wire for DoorData {
    type M = DoorModel;

    open spec fn model(&self) -> DoorModel {
        DoorModel {
            tileset: self.tileset,
            metatile: self.metatile,
            frames: self.frames.model(),
        }
    }

    open spec fn enc(m: DoorModel) -> Seq<u8> {
        codec::le16(m.tileset) + (codec::le16(m.metatile) + enc_image(m.frames))
    }

    open spec fn dec(s: Seq<u8>) -> Dec<DoorModel> {
        match codec::dec_u16(s) {
            Err(e) => Err(e),
            Ok((tileset, s)) => match codec::dec_u16(s) {
                Err(e) => Err(e),
                Ok((metatile, s)) => match dec_image("door image size mismatch"@, s) {
                    Err(e) => Err(e),
                    Ok((frames, s)) => Ok((DoorModel { tileset, metatile, frames }, s)),
                },
            },
        }
    }

    open spec fn fits(m: DoorModel) -> bool {
        &&& m.frames.fits()
    }

    proof fn dec_enc(m: DoorModel, post: Seq<u8>) {
        broadcast use codec::lemma_assoc;

        let t2 = enc_image(m.frames) + post;
        let t1 = codec::le16(m.metatile) + t2;
        codec::lemma_dec_u16(m.tileset, t1);
        codec::lemma_dec_u16(m.metatile, t2);
        lemma_dec_image("door image size mismatch"@, m.frames, post);
    }

    proof fn dec_more(s: Seq<u8>, t: Seq<u8>) {
        if Self::dec(s) is Ok {
            codec::lemma_more_u16(s, t);
            let s1 = codec::dec_u16(s)->Ok_0.1;
            codec::lemma_more_u16(s1, t);
            let s2 = codec::dec_u16(s1)->Ok_0.1;
            lemma_more_image("door image size mismatch"@, s2, t);
        }
    }

    fn write(&self, w: &mut W) {
        broadcast use codec::lemma_assoc;

        w.u16(self.tileset);
        w.u16(self.metatile);
        self.frames.write(w);
    }

    fn read(r: &mut R<'_>) -> (res: Result<DoorData, PackError>) {
        let tileset: u16 = r.u16()?;
        let metatile: u16 = r.u16()?;
        let frames = read_image(r, "door image size mismatch")?;
        Ok(DoorData { tileset, metatile, frames })
    }
}

impl Wire for Start {
    type M = Start;

    open spec fn model(&self) -> Start {
        *self
    }

    open spec fn enc(m: Start) -> Seq<u8> {
        codec::le16(m.realm) + (codec::le32(codec::bits32(m.x)) + codec::le32(codec::bits32(m.y)))
    }

    open spec fn dec(s: Seq<u8>) -> Dec<Start> {
        match codec::dec_u16(s) {
            Err(e) => Err(e),
            Ok((realm, s)) => match codec::dec_i32(s) {
                Err(e) => Err(e),
                Ok((x, s)) => match codec::dec_i32(s) {
                    Err(e) => Err(e),
                    Ok((y, s)) => Ok((Start { realm, x, y }, s)),
                },
            },
        }
    }

    open spec fn fits(m: Start) -> bool {
        true
    }

    proof fn dec_enc(m: Start, post: Seq<u8>) {
        broadcast use codec::lemma_assoc;

        let t2 = codec::le32(codec::bits32(m.y)) + post;
        let t1 = codec::le32(codec::bits32(m.x)) + t2;
        codec::lemma_dec_u16(m.realm, t1);
        codec::lemma_dec_i32(m.x, t2);
        codec::lemma_dec_i32(m.y, post);
    }

    proof fn dec_more(s: Seq<u8>, t: Seq<u8>) {
        if Self::dec(s) is Ok {
            codec::lemma_more_u16(s, t);
            let s1 = codec::dec_u16(s)->Ok_0.1;
            codec::lemma_more_u32(s1, t);
            let s2 = codec::dec_i32(s1)->Ok_0.1;
            codec::lemma_more_u32(s2, t);
        }
    }

    fn write(&self, w: &mut W) {
        broadcast use codec::lemma_assoc;

        w.u16(self.realm);
        w.i32(self.x);
        w.i32(self.y);
    }

    fn read(r: &mut R<'_>) -> (res: Result<Start, PackError>) {
        let realm: u16 = r.u16()?;
        let x: i32 = r.i32()?;
        let y: i32 = r.i32()?;
        Ok(Start { realm, x, y })
    }
}

// ---- the pack ------------------------------------------------------------

/// A world pack as a value.
#[verifier::ext_equal]
pub struct WorldModel {
    pub tilesets: Seq<TilesetModel>,
    pub pairs: Seq<(u16, u16)>,
    pub layouts: Seq<LayoutModel>,
    pub realms: Seq<RealmModel>,
    pub player: ImageModel,
    pub font: ImageModel,
    pub font_widths: Seq<u8>,
    pub surf_player: ImageModel,
    pub surf_blob: ImageModel,
    pub bike: ImageModel,
    pub doors: Seq<DoorModel>,
    pub surfable: Seq<u8>,
    pub warp_dir: Seq<u8>,
    pub start: Start,
}

/// What there is to walk on.
pub open spec fn enc_ground(m: WorldModel) -> Seq<u8> {
    codec::enc_list::<TilesetData>(m.tilesets) + (codec::enc_list::<(u16, u16)>(m.pairs)
        + (codec::enc_list::<LayoutData>(m.layouts) + codec::enc_list::<RealmData>(m.realms)))
}

pub open spec fn dec_ground(s: Seq<u8>) -> Dec<(Seq<TilesetModel>, Seq<(u16, u16)>,
    Seq<LayoutModel>, Seq<RealmModel>)> {
    match codec::dec_list::<TilesetData>(s) {
        Err(e) => Err(e),
        Ok((tilesets, s)) => match codec::dec_list::<(u16, u16)>(s) {
            Err(e) => Err(e),
            Ok((pairs, s)) => match codec::dec_list::<LayoutData>(s) {
                Err(e) => Err(e),
                Ok((layouts, s)) => match codec::dec_list::<RealmData>(s) {
                    Err(e) => Err(e),
                    Ok((realms, s)) => Ok(((tilesets, pairs, layouts, realms), s)),
                },
            },
        },
    }
}

pub open spec fn fits_ground(m: WorldModel) -> bool {
    &&& codec::fits_list::<TilesetData>(m.tilesets)
    &&& codec::fits_list::<(u16, u16)>(m.pairs)
    &&& codec::fits_list::<LayoutData>(m.layouts)
    &&& codec::fits_list::<RealmData>(m.realms)
}

proof fn lemma_dec_ground(m: WorldModel, post: Seq<u8>)
    requires
        fits_ground(m),
    ensures
        dec_ground(enc_ground(m) + post) == Ok::<_, Seq<char>>(((m.tilesets, m.pairs, m.layouts,
            m.realms), post)),
{
    broadcast use codec::lemma_assoc;

    let t3 = codec::enc_list::<RealmData>(m.realms) + post;
    let t2 = codec::enc_list::<LayoutData>(m.layouts) + t3;
    let t1 = codec::enc_list::<(u16, u16)>(m.pairs) + t2;
    codec::lemma_dec_list::<TilesetData>(m.tilesets, t1);
    codec::lemma_dec_list::<(u16, u16)>(m.pairs, t2);
    codec::lemma_dec_list::<LayoutData>(m.layouts, t3);
    codec::lemma_dec_list::<RealmData>(m.realms, post);
}

proof fn lemma_more_ground(s: Seq<u8>, t: Seq<u8>)
    ensures
        codec::extends(dec_ground(s), dec_ground(s + t), t),
{
    if dec_ground(s) is Ok {
        codec::lemma_more_list::<TilesetData>(s, t);
        let s1 = codec::dec_list::<TilesetData>(s)->Ok_0.1;
        codec::lemma_more_list::<(u16, u16)>(s1, t);
        let s2 = codec::dec_list::<(u16, u16)>(s1)->Ok_0.1;
        codec::lemma_more_list::<LayoutData>(s2, t);
        let s3 = codec::dec_list::<LayoutData>(s2)->Ok_0.1;
        codec::lemma_more_list::<RealmData>(s3, t);
    }
}

/// What is drawn on top of it.
pub open spec fn enc_art(m: WorldModel) -> Seq<u8> {
    enc_image(m.player) + (enc_image(m.font) + (codec::enc_bytes(m.font_widths)
        + (enc_image(m.surf_player) + (enc_image(m.surf_blob) + enc_image(m.bike)))))
}

pub open spec fn dec_art(s: Seq<u8>) -> Dec<(ImageModel, ImageModel, Seq<u8>, ImageModel,
    ImageModel, ImageModel)> {
    match dec_image("player image size mismatch"@, s) {
        Err(e) => Err(e),
        Ok((player, s)) => match dec_image("font image size mismatch"@, s) {
            Err(e) => Err(e),
            Ok((font, s)) => match codec::dec_bytes(s) {
                Err(e) => Err(e),
                Ok((font_widths, s)) => match dec_image("image size mismatch"@, s) {
                    Err(e) => Err(e),
                    Ok((surf_player, s)) => match dec_image("image size mismatch"@, s) {
                        Err(e) => Err(e),
                        Ok((surf_blob, s)) => match dec_image("image size mismatch"@, s) {
                            Err(e) => Err(e),
                            Ok((bike, s)) => Ok(((player, font, font_widths, surf_player,
                                surf_blob, bike), s)),
                        },
                    },
                },
            },
        },
    }
}

pub open spec fn fits_art(m: WorldModel) -> bool {
    &&& m.player.fits()
    &&& m.font.fits()
    &&& m.font_widths.len() < 0x1_0000_0000
    &&& m.surf_player.fits()
    &&& m.surf_blob.fits()
    &&& m.bike.fits()
}

proof fn lemma_dec_art(m: WorldModel, post: Seq<u8>)
    requires
        fits_art(m),
    ensures
        dec_art(enc_art(m) + post) == Ok::<_, Seq<char>>(((m.player, m.font, m.font_widths,
            m.surf_player, m.surf_blob, m.bike), post)),
{
    broadcast use codec::lemma_assoc;

    let t5 = enc_image(m.bike) + post;
    let t4 = enc_image(m.surf_blob) + t5;
    let t3 = enc_image(m.surf_player) + t4;
    let t2 = codec::enc_bytes(m.font_widths) + t3;
    let t1 = enc_image(m.font) + t2;
    lemma_dec_image("player image size mismatch"@, m.player, t1);
    lemma_dec_image("font image size mismatch"@, m.font, t2);
    codec::lemma_dec_bytes(m.font_widths, t3);
    lemma_dec_image("image size mismatch"@, m.surf_player, t4);
    lemma_dec_image("image size mismatch"@, m.surf_blob, t5);
    lemma_dec_image("image size mismatch"@, m.bike, post);
}

proof fn lemma_more_art(s: Seq<u8>, t: Seq<u8>)
    ensures
        codec::extends(dec_art(s), dec_art(s + t), t),
{
    if dec_art(s) is Ok {
        lemma_more_image("player image size mismatch"@, s, t);
        let s1 = dec_image("player image size mismatch"@, s)->Ok_0.1;
        lemma_more_image("font image size mismatch"@, s1, t);
        let s2 = dec_image("font image size mismatch"@, s1)->Ok_0.1;
        codec::lemma_more_bytes(s2, t);
        let s3 = codec::dec_bytes(s2)->Ok_0.1;
        lemma_more_image("image size mismatch"@, s3, t);
        let s4 = dec_image("image size mismatch"@, s3)->Ok_0.1;
        lemma_more_image("image size mismatch"@, s4, t);
        let s5 = dec_image("image size mismatch"@, s4)->Ok_0.1;
        lemma_more_image("image size mismatch"@, s5, t);
    }
}

/// Doors, what each behavior does, and where play begins.
pub open spec fn enc_rules(m: WorldModel) -> Seq<u8> {
    codec::enc_list::<DoorData>(m.doors) + (m.surfable + (m.warp_dir + Start::enc(m.start)))
}

pub open spec fn dec_rules(s: Seq<u8>) -> Dec<(Seq<DoorModel>, Seq<u8>, Seq<u8>, Start)> {
    match codec::dec_list::<DoorData>(s) {
        Err(e) => Err(e),
        Ok((doors, s)) => match codec::dec_take(32, s) {
            Err(e) => Err(e),
            Ok((surfable, s)) => match codec::dec_take(256, s) {
                Err(e) => Err(e),
                Ok((warp_dir, s)) => match Start::dec(s) {
                    Err(e) => Err(e),
                    Ok((start, s)) => Ok(((doors, surfable, warp_dir, start), s)),
                },
            },
        },
    }
}

pub open spec fn fits_rules(m: WorldModel) -> bool {
    &&& codec::fits_list::<DoorData>(m.doors)
    &&& m.surfable.len() == 32
    &&& m.warp_dir.len() == 256
    &&& Start::fits(m.start)
}

proof fn lemma_dec_rules(m: WorldModel, post: Seq<u8>)
    requires
        fits_rules(m),
    ensures
        dec_rules(enc_rules(m) + post) == Ok::<_, Seq<char>>(((m.doors, m.surfable, m.warp_dir,
            m.start), post)),
{
    broadcast use codec::lemma_assoc;

    let t3 = Start::enc(m.start) + post;
    let t2 = m.warp_dir + t3;
    let t1 = m.surfable + t2;
    codec::lemma_dec_list::<DoorData>(m.doors, t1);
    codec::lemma_dec_take(m.surfable, t2);
    codec::lemma_dec_take(m.warp_dir, t3);
    Start::dec_enc(m.start, post);
}

proof fn lemma_more_rules(s: Seq<u8>, t: Seq<u8>)
    ensures
        codec::extends(dec_rules(s), dec_rules(s + t), t),
{
    if dec_rules(s) is Ok {
        codec::lemma_more_list::<DoorData>(s, t);
        let s1 = codec::dec_list::<DoorData>(s)->Ok_0.1;
        codec::lemma_more_take(32, s1, t);
        let s2 = codec::dec_take(32, s1)->Ok_0.1;
        codec::lemma_more_take(256, s2, t);
        let s3 = codec::dec_take(256, s2)->Ok_0.1;
        Start::dec_more(s3, t);
    }
}

/// The bytes of a pack.
pub open spec fn enc_world(m: WorldModel) -> Seq<u8> {
    MAGIC@ + (enc_ground(m) + (enc_art(m) + enc_rules(m)))
}

/// The pack at the front of `s`, or the first fault in it.
pub open spec fn dec_world(s: Seq<u8>) -> Dec<WorldModel> {
    match codec::dec_take(8, s) {
        Err(e) => Err(e),
        Ok((magic, s)) => if magic != MAGIC@ {
            Err("bad magic (regenerate with worldgen)"@)
        } else {
            match dec_ground(s) {
                Err(e) => Err(e),
                Ok((g, s)) => match dec_art(s) {
                    Err(e) => Err(e),
                    Ok((a, s)) => match dec_rules(s) {
                        Err(e) => Err(e),
                        Ok((t, s)) => Ok(
                            (
                                WorldModel {
                                    tilesets: g.0,
                                    pairs: g.1,
                                    layouts: g.2,
                                    realms: g.3,
                                    player: a.0,
                                    font: a.1,
                                    font_widths: a.2,
                                    surf_player: a.3,
                                    surf_blob: a.4,
                                    bike: a.5,
                                    doors: t.0,
                                    surfable: t.1,
                                    warp_dir: t.2,
                                    start: t.3,
                                },
                                s,
                            ),
                        ),
                    },
                },
            }
        },
    }
}

/// Whether a pack can be written without loss: its lengths fit their fields
/// and its images have the size they state.
pub open spec fn fits_world(m: WorldModel) -> bool {
    &&& fits_ground(m)
    &&& fits_art(m)
    &&& fits_rules(m)
}

/// A pack that was written is read back as it was, whatever follows it.
pub proof fn world_reads_back(m: WorldModel, post: Seq<u8>)
    requires
        fits_world(m),
    ensures
        dec_world(enc_world(m) + post) == Ok::<(WorldModel, Seq<u8>), Seq<char>>((m, post)),
{
    broadcast use codec::lemma_assoc;

    let t2 = enc_rules(m) + post;
    let t1 = enc_art(m) + t2;
    let t0 = enc_ground(m) + t1;
    codec::lemma_dec_take(MAGIC@, t0);
    lemma_dec_ground(m, t1);
    lemma_dec_art(m, t2);
    lemma_dec_rules(m, post);
}

/// Bytes behind a pack change nothing of what is read.
pub proof fn world_ignores_what_follows(s: Seq<u8>, t: Seq<u8>)
    ensures
        codec::extends(dec_world(s), dec_world(s + t), t),
{
    if dec_world(s) is Ok {
        codec::lemma_more_take(8, s, t);
        let s1 = codec::dec_take(8, s)->Ok_0.1;
        lemma_more_ground(s1, t);
        let s2 = dec_ground(s1)->Ok_0.1;
        lemma_more_art(s2, t);
        let s3 = dec_art(s2)->Ok_0.1;
        lemma_more_rules(s3, t);
    }
}

/// A pack that lost any of its last bytes is refused.
pub proof fn cut_world_is_refused(m: WorldModel, n: int)
    requires
        fits_world(m),
        0 <= n < enc_world(m).len(),
    ensures
        dec_world(enc_world(m).take(n)) is Err,
{
    let whole = enc_world(m);
    let s = whole.take(n);
    let t = whole.skip(n);
    assert(s + t =~= whole);
    assert(whole + Seq::<u8>::empty() =~= whole);
    world_reads_back(m, Seq::empty());
    world_ignores_what_follows(s, t);
}

impl WorldPack {
    pub open spec fn model(&self) -> WorldModel {
        WorldModel {
            tilesets: codec::models(self.tilesets@),
            pairs: codec::models(self.pairs@),
            layouts: codec::models(self.layouts@),
            realms: codec::models(self.realms@),
            player: self.player.model(),
            font: self.font.model(),
            font_widths: self.font_widths@,
            surf_player: self.surf_player.model(),
            surf_blob: self.surf_blob.model(),
            bike: self.bike.model(),
            doors: codec::models(self.doors@),
            surfable: self.surfable@,
            warp_dir: self.warp_dir@,
            start: self.start.model(),
        }
    }

    pub fn to_bytes(&self) -> (out: Vec<u8>)
        ensures
            out@ == enc_world(self.model()),
    {
        broadcast use codec::lemma_assoc;

        let mut w = W(Vec::new());
        w.raw(MAGIC.as_slice());
        self.write_ground(&mut w);
        self.write_art(&mut w);
        self.write_rules(&mut w);
        assert(w.0@ =~= enc_world(self.model()));
        w.0
    }

    fn write_ground(&self, w: &mut W)
        ensures
            final(w).0@ == old(w).0@ + enc_ground(self.model()),
    {
        broadcast use codec::lemma_assoc;

        write_list(&self.tilesets, w);
        write_list(&self.pairs, w);
        write_list(&self.layouts, w);
        write_list(&self.realms, w);
    }

    fn write_art(&self, w: &mut W)
        ensures
            final(w).0@ == old(w).0@ + enc_art(self.model()),
    {
        broadcast use codec::lemma_assoc;

        self.player.write(w);
        self.font.write(w);
        w.bytes(&self.font_widths);
        self.surf_player.write(w);
        self.surf_blob.write(w);
        self.bike.write(w);
    }

    fn write_rules(&self, w: &mut W)
        ensures
            final(w).0@ == old(w).0@ + enc_rules(self.model()),
    {
        broadcast use codec::lemma_assoc;

        write_list(&self.doors, w);
        w.raw(self.surfable.as_slice());
        w.raw(self.warp_dir.as_slice());
        self.start.write(w);
    }

    pub fn from_bytes(b: &[u8]) -> (res: Result<WorldPack, PackError>)
        ensures
            match dec_world(b@) {
                Ok((m, _)) => (res matches Ok(p) && p.model() == m),
                Err(m) => (res matches Err(e) && e.0@ == m),
            },
    {
        let mut r = R { b, p: 0 };
        assert(r.rest() =~= b@);
        let magic = r.take(8)?;
        if !same_bytes(magic, MAGIC.as_slice()) {
            return Err(PackError("bad magic (regenerate with worldgen)"));
        }
        let ghost s1 = r.rest();
        let tilesets = read_list::<TilesetData>(&mut r)?;
        let pairs = read_list::<(u16, u16)>(&mut r)?;
        let layouts = read_list::<LayoutData>(&mut r)?;
        let realms = read_list::<RealmData>(&mut r)?;
        let ghost s2 = r.rest();
        assert(dec_ground(s1) is Ok && dec_ground(s1)->Ok_0.1 == s2);
        let player = read_image(&mut r, "player image size mismatch")?;
        let font = read_image(&mut r, "font image size mismatch")?;
        let font_widths = r.bytes()?;
        let surf_player = read_image(&mut r, "image size mismatch")?;
        let surf_blob = read_image(&mut r, "image size mismatch")?;
        let bike = read_image(&mut r, "image size mismatch")?;
        let ghost s3 = r.rest();
        assert(dec_art(s2) is Ok && dec_art(s2)->Ok_0.1 == s3);
        let doors = read_list::<DoorData>(&mut r)?;
        let surfable = array32(r.take(32)?);
        let warp_dir = array256(r.take(256)?);
        let start = Start::read(&mut r)?;
        Ok(
            WorldPack {
                tilesets,
                pairs,
                layouts,
                realms,
                player,
                font,
                font_widths,
                surf_player,
                surf_blob,
                bike,
                doors,
                surfable,
                warp_dir,
                start,
            },
        )
    }
}

} // verus!
