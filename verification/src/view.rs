//! What the map views need from the world, in whole numbers: the camera
//! rectangle, the bounding boxes of territories, the dithering hash and the
//! biome palette. (The pixels themselves are painted by the application.)

use vstd::prelude::*;

use crate::realm::{Plot, Realm};
use crate::tile::Biome;

verus! {

/// Camera origin: centred on `cam` for a span of `span` tiles, kept within
/// `0..=max - span` (saturating).
pub open spec fn clamp_cam_spec(cam: u32, span: u32, max: u32) -> u32 {
    let a = if cam >= span / 2 { cam - span / 2 } else { 0 };
    let b = if max >= span { max - span } else { 0 };
    (if a <= b { a } else { b }) as u32
}

/// Camera origin centred on `cam` (see [`clamp_cam_spec`]).
pub fn clamp_cam(cam: u32, span: u32, max: u32) -> (r: u32)
    ensures
        r == clamp_cam_spec(cam, span, max),
{
    let a = cam.saturating_sub(span / 2);
    let b = max.saturating_sub(span);
    if a <= b { a } else { b }
}

/// What the player does to the camera in one frame: the pan keys held, and the
/// way the wheel turned (above zero in, below zero out, zero not at all).
#[derive(Clone, Copy, Debug, PartialEq, Eq)]
pub struct CameraInput {
    pub left: bool,
    pub right: bool,
    pub up: bool,
    pub down: bool,
    pub wheel: i32,
}

/// The map camera: the tile it looks at and the size of a tile in pixels.
#[derive(Clone, Copy, Debug, PartialEq, Eq)]
pub struct Camera {
    pub x: u32,
    pub y: u32,
    pub px: u32,
}

/// Tiles the camera moves per frame while a pan key is held.
pub const PAN_STEP: u32 = 2;
/// Pixels a tile grows or shrinks by per turn of the wheel.
pub const ZOOM_STEP: u32 = 4;
/// Smallest tile size the wheel zooms out to.
pub const MIN_TILE_PX: u32 = 6;
/// Largest tile size the wheel zooms in to.
pub const MAX_TILE_PX: u32 = 40;

/// `c` moved back by a pan step, stopping at 0.
pub open spec fn pan_back(c: u32) -> u32 {
    if c >= PAN_STEP { (c - PAN_STEP) as u32 } else { 0 }
}

/// `c` moved forth by a pan step, stopping at the last of `max` tiles.
pub open spec fn pan_forth(c: u32, max: u32) -> u32 {
    if c + PAN_STEP <= max - 1 { (c + PAN_STEP) as u32 } else { (max - 1) as u32 }
}

/// The camera after one frame of input on a map of `width` × `height` tiles:
/// left, then right, then up, then down move it by a pan step within the map;
/// the wheel then zooms in (tile size up a step, at most [`MAX_TILE_PX`]) or
/// out (down a step, at least [`MIN_TILE_PX`]).
pub open spec fn camera_step_spec(cam: Camera, input: CameraInput, width: u32, height: u32) -> Camera {
    let x1 = if input.left { pan_back(cam.x) } else { cam.x };
    let x2 = if input.right { pan_forth(x1, width) } else { x1 };
    let y1 = if input.up { pan_back(cam.y) } else { cam.y };
    let y2 = if input.down { pan_forth(y1, height) } else { y1 };
    let px = if input.wheel > 0 {
        if cam.px + ZOOM_STEP <= MAX_TILE_PX { (cam.px + ZOOM_STEP) as u32 } else { MAX_TILE_PX }
    } else if input.wheel < 0 {
        let d = if cam.px >= ZOOM_STEP { cam.px - ZOOM_STEP } else { 0 };
        if d >= MIN_TILE_PX { d as u32 } else { MIN_TILE_PX }
    } else {
        cam.px
    };
    Camera { x: x2, y: y2, px }
}

fn pan_back_of(c: u32) -> (r: u32)
    ensures
        r == pan_back(c),
{
    c.saturating_sub(PAN_STEP)
}

fn pan_forth_of(c: u32, max: u32) -> (r: u32)
    requires
        max > 0,
    ensures
        r == pan_forth(c, max),
{
    let last = max - 1;
    if c <= last && last - c >= PAN_STEP {
        c + PAN_STEP
    } else {
        last
    }
}

/// One frame of camera control (see [`camera_step_spec`]).
pub fn camera_step(cam: Camera, input: CameraInput, width: u32, height: u32) -> (r: Camera)
    requires
        width > 0,
        height > 0,
    ensures
        r == camera_step_spec(cam, input, width, height),
        cam.x < width ==> r.x < width,
        cam.y < height ==> r.y < height,
        MIN_TILE_PX <= cam.px <= MAX_TILE_PX ==> MIN_TILE_PX <= r.px <= MAX_TILE_PX,
{
    let mut x = cam.x;
    if input.left {
        x = pan_back_of(x);
    }
    if input.right {
        x = pan_forth_of(x, width);
    }
    let mut y = cam.y;
    if input.up {
        y = pan_back_of(y);
    }
    if input.down {
        y = pan_forth_of(y, height);
    }
    let px = if input.wheel > 0 {
        if cam.px <= MAX_TILE_PX - ZOOM_STEP { cam.px + ZOOM_STEP } else { MAX_TILE_PX }
    } else if input.wheel < 0 {
        let d = cam.px.saturating_sub(ZOOM_STEP);
        if d >= MIN_TILE_PX { d } else { MIN_TILE_PX }
    } else {
        cam.px
    };
    Camera { x, y, px }
}

/// The viewport of a window of `win_w` × `win_h` pixels with tiles of `px`
/// pixels (clamped to 4..=64) centred on (cam_x, cam_y): (x0, y0, cols, rows,
/// px). Shared by the drawing and the mouse-to-tile mapping.
pub fn viewport_rect(realm: &Realm, cam_x: u32, cam_y: u32, px: u32, win_w: u32, win_h: u32)
    -> (r: (u32, u32, u32, u32, u32))
    ensures
        ({
            let p = if px < 4 { 4 } else if px > 64 { 64 } else { px };
            let cols = if win_w / p >= 1 { win_w / p } else { 1 };
            let rows = if win_h / p >= 1 { win_h / p } else { 1 };
            r == (clamp_cam_spec(cam_x, cols as u32, realm.width), clamp_cam_spec(cam_y, rows as u32, realm.height),
                cols as u32, rows as u32, p)
        }),
{
    let p = if px < 4 { 4 } else if px > 64 { 64 } else { px };
    let cols = if win_w / p >= 1 { win_w / p } else { 1 };
    let rows = if win_h / p >= 1 { win_h / p } else { 1 };
    let x0 = clamp_cam(cam_x, cols, realm.width);
    let y0 = clamp_cam(cam_y, rows, realm.height);
    (x0, y0, cols, rows, p)
}

/// Does tile `i` count (owned by `nation`, or by anyone when `nation` is `None`)?
pub open spec fn counted(p: Plot, nation: Option<u16>) -> bool {
    match nation {
        Some(n) => p.owner == Some(n),
        None => p.owner is Some,
    }
}

/// The counted tiles span columns `mnx..=mxx` and rows `mny..=mxy` exactly.
pub open spec fn spans(ps: Seq<Plot>, w: int, nation: Option<u16>, mnx: int, mny: int, mxx: int, mxy: int) -> bool {
    &&& forall|i: int| 0 <= i < ps.len() && counted(#[trigger] ps[i], nation) ==>
        mnx <= i % w <= mxx && mny <= i / w <= mxy
    &&& exists|i: int| 0 <= i < ps.len() && counted(#[trigger] ps[i], nation) && i % w == mnx
    &&& exists|i: int| 0 <= i < ps.len() && counted(#[trigger] ps[i], nation) && i % w == mxx
    &&& exists|i: int| 0 <= i < ps.len() && counted(#[trigger] ps[i], nation) && i / w == mny
    &&& exists|i: int| 0 <= i < ps.len() && counted(#[trigger] ps[i], nation) && i / w == mxy
}

/// The box (x0, y0, w, h) around the span, widened by `pad` within the map.
pub open spec fn padded(mnx: int, mny: int, mxx: int, mxy: int, pad: int, w: int, h: int) -> (u32, u32, u32, u32) {
    let x0 = if mnx >= pad { mnx - pad } else { 0 };
    let y0 = if mny >= pad { mny - pad } else { 0 };
    let x1 = if mxx + pad <= w - 1 { mxx + pad } else { w - 1 };
    let y1 = if mxy + pad <= h - 1 { mxy + pad } else { h - 1 };
    (x0 as u32, y0 as u32, (x1 - x0 + 1) as u32, (y1 - y0 + 1) as u32)
}

/// Bounding box (x0, y0, w, h) of the counted tiles, widened by `pad` tiles
/// within the map; `None` when no tile counts.
fn bbox(realm: &Realm, nation: Option<u16>, pad: u32) -> (r: Option<(u32, u32, u32, u32)>)
    requires
        realm.wf(),
    ensures
        r is None <==> forall|i: int| 0 <= i < realm.plots@.len() ==> !counted(#[trigger] realm.plots@[i], nation),
        r matches Some(b) ==> exists|mnx: int, mny: int, mxx: int, mxy: int|
            #[trigger] spans(realm.plots@, realm.width as int, nation, mnx, mny, mxx, mxy)
            && b == padded(mnx, mny, mxx, mxy, pad as int, realm.width as int, realm.height as int),
{
    let n = realm.plots.len();
    let w = realm.width as usize;
    let mut mnx: usize = 0;
    let mut mny: usize = 0;
    let mut mxx: usize = 0;
    let mut mxy: usize = 0;
    let mut any = false;
    let mut i: usize = 0;
    let ghost ps = realm.plots@;
    let ghost wi = realm.width as int;
    while i < n
        invariant
            realm.wf(),
            ps == realm.plots@,
            n == ps.len(),
            w == wi,
            wi == realm.width,
            0 <= i <= n,
            !any ==> forall|j: int| 0 <= j < i ==> !counted(#[trigger] ps[j], nation),
            any ==> {
                &&& forall|j: int| 0 <= j < i && counted(#[trigger] ps[j], nation) ==>
                    mnx <= j % wi <= mxx && mny <= j / wi <= mxy
                &&& exists|j: int| 0 <= j < i && counted(#[trigger] ps[j], nation) && j % wi == mnx
                &&& exists|j: int| 0 <= j < i && counted(#[trigger] ps[j], nation) && j % wi == mxx
                &&& exists|j: int| 0 <= j < i && counted(#[trigger] ps[j], nation) && j / wi == mny
                &&& exists|j: int| 0 <= j < i && counted(#[trigger] ps[j], nation) && j / wi == mxy
            },
            any ==> mxx < wi && mxy < realm.height,
        decreases n - i,
    {
        let p = realm.plots[i];
        let hit = match nation {
            Some(k) => p.owner == Some(k),
            None => p.owner.is_some(),
        };
        if hit {
            let x = i % w;
            let y = i / w;
            proof {
                crate::path::lemma_nb_in_map(i as int, 0, wi, realm.height as int);
                vstd::arithmetic::div_mod::lemma_fundamental_div_mod(i as int, wi);
                assert(0 <= (i as int) % wi < wi) by (nonlinear_arith)
                    requires wi > 0;
                assert((i as int) / wi < realm.height) by (nonlinear_arith)
                    requires wi > 0, 0 <= i < wi * realm.height, i == wi * ((i as int) / wi) + (i as int) % wi,
                        0 <= (i as int) % wi;
            }
            if !any {
                mnx = x;
                mxx = x;
                mny = y;
                mxy = y;
                any = true;
            } else {
                if x < mnx {
                    mnx = x;
                }
                if x > mxx {
                    mxx = x;
                }
                if y < mny {
                    mny = y;
                }
                if y > mxy {
                    mxy = y;
                }
            }
            proof {
                assert(counted(ps[i as int], nation));
            }
        }
        i = i + 1;
    }
    if !any {
        return None;
    }
    let x0 = if mnx >= pad as usize { mnx - pad as usize } else { 0 };
    let y0 = if mny >= pad as usize { mny - pad as usize } else { 0 };
    let wm = realm.width as u64 - 1;
    let hm = realm.height as u64 - 1;
    let x1 = if mxx as u64 + pad as u64 <= wm { mxx as u64 + pad as u64 } else { wm };
    let y1 = if mxy as u64 + pad as u64 <= hm { mxy as u64 + pad as u64 } else { hm };
    proof {
        assert(spans(ps, wi, nation, mnx as int, mny as int, mxx as int, mxy as int));
    }
    Some((x0 as u32, y0 as u32, (x1 - x0 as u64 + 1) as u32, (y1 - y0 as u64 + 1) as u32))
}

/// Bounding box (x0, y0, w, h) of the territory of `nation`, widened by `pad`
/// tiles within the map; `None` when it owns nothing.
pub fn nation_bbox(realm: &Realm, nation: u16, pad: u32) -> (r: Option<(u32, u32, u32, u32)>)
    requires
        realm.wf(),
    ensures
        r is None <==> forall|i: int| 0 <= i < realm.plots@.len() ==> realm.plots@[i].owner != Some(nation),
        r matches Some(b) ==> exists|mnx: int, mny: int, mxx: int, mxy: int|
            #[trigger] spans(realm.plots@, realm.width as int, Some(nation), mnx, mny, mxx, mxy)
            && b == padded(mnx, mny, mxx, mxy, pad as int, realm.width as int, realm.height as int),
{
    let r = bbox(realm, Some(nation), pad);
    proof {
        if r is None {
            assert forall|i: int| 0 <= i < realm.plots@.len() implies realm.plots@[i].owner != Some(nation) by {
                assert(!counted(realm.plots@[i], Some(nation)));
            }
        } else {
            if forall|i: int| 0 <= i < realm.plots@.len() ==> realm.plots@[i].owner != Some(nation) {
                assert forall|i: int| 0 <= i < realm.plots@.len() implies !counted(#[trigger] realm.plots@[i], Some(nation)) by {
                    assert(realm.plots@[i].owner != Some(nation));
                }
            }
        }
    }
    r
}

/// Bounding box (x0, y0, w, h) of all the territories, widened by `pad`
/// tiles within the map; `None` when nobody owns anything.
pub fn nations_bbox(realm: &Realm, pad: u32) -> (r: Option<(u32, u32, u32, u32)>)
    requires
        realm.wf(),
    ensures
        r is None <==> forall|i: int| 0 <= i < realm.plots@.len() ==> realm.plots@[i].owner is None,
        r matches Some(b) ==> exists|mnx: int, mny: int, mxx: int, mxy: int|
            #[trigger] spans(realm.plots@, realm.width as int, None, mnx, mny, mxx, mxy)
            && b == padded(mnx, mny, mxx, mxy, pad as int, realm.width as int, realm.height as int),
{
    let r = bbox(realm, None, pad);
    proof {
        if r is None {
            assert forall|i: int| 0 <= i < realm.plots@.len() implies realm.plots@[i].owner is None by {
                assert(!counted(realm.plots@[i], None));
            }
        } else {
            if forall|i: int| 0 <= i < realm.plots@.len() ==> realm.plots@[i].owner is None {
                assert forall|i: int| 0 <= i < realm.plots@.len() implies !counted(#[trigger] realm.plots@[i], None) by {
                    assert(realm.plots@[i].owner is None);
                }
            }
        }
    }
    r
}

/// Integer hash of a pixel (dithering of the tiles).
pub open spec fn hash2_spec(x: u32, y: u32) -> u32 {
    let h0 = (x as u64).wrapping_mul(0x9E37_79B1) ^ (y as u64).wrapping_mul(0x85EB_CA77);
    let h1 = h0 ^ (h0 >> 15u64);
    let h2 = h1.wrapping_mul(0x2C1B_3C6D);
    let h3 = h2 ^ (h2 >> 12u64);
    h3 as u32
}

/// Integer hash of a pixel (see [`hash2_spec`]).
pub fn hash2(x: u32, y: u32) -> (r: u32)
    ensures
        r == hash2_spec(x, y),
{
    let mut h = (x as u64).wrapping_mul(0x9E37_79B1) ^ (y as u64).wrapping_mul(0x85EB_CA77);
    h = h ^ (h >> 15u64);
    h = h.wrapping_mul(0x2C1B_3C6D);
    h = h ^ (h >> 12u64);
    h as u32
}

/// Base colour of a biome (RGB).
pub open spec fn biome_color_spec(b: Biome) -> [u8; 3] {
    match b {
        Biome::Ocean => [38u8, 78u8, 132u8],
        Biome::Ice => [216u8, 228u8, 236u8],
        Biome::Tundra => [134u8, 148u8, 130u8],
        Biome::Boreal => [40u8, 82u8, 60u8],
        Biome::Grassland => [104u8, 158u8, 72u8],
        Biome::Desert => [216u8, 196u8, 128u8],
        Biome::Savanna => [182u8, 162u8, 84u8],
        Biome::TemperateForest => [54u8, 112u8, 66u8],
        Biome::TropicalForest => [32u8, 98u8, 54u8],
    }
}

/// Base colour of a biome (RGB).
pub fn biome_color(b: Biome) -> (c: [u8; 3])
    ensures
        c == biome_color_spec(b),
{
    match b {
        Biome::Ocean => [38, 78, 132],
        Biome::Ice => [216, 228, 236],
        Biome::Tundra => [134, 148, 130],
        Biome::Boreal => [40, 82, 60],
        Biome::Grassland => [104, 158, 72],
        Biome::Desert => [216, 196, 128],
        Biome::Savanna => [182, 162, 84],
        Biome::TemperateForest => [54, 112, 66],
        Biome::TropicalForest => [32, 98, 54],
    }
}

} // verus!
