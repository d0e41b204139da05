//! The audit fingerprint of the world: an FNV-1a hash over every tile, nation,
//! unit, cargo, war and grievance, in a fixed order. Two runs from the same
//! seed and commands yield the same fingerprints.
//!
//! The continuous layers enter the hash by their bit patterns, which the
//! application hands over (`tile_bits`, `knowledge_bits`, the grievances).

use vstd::prelude::*;

use crate::nation::Nation;
use crate::proto::Building;
use crate::realm::{Hold, Plot, Realm};
use crate::tile::TileKind;
use crate::unit::{code_of, kind_code, CarriedUnit, Unit};

verus! {

/// FNV-1a offset basis.
pub const FNV_OFFSET: u64 = 0xcbf2_9ce4_8422_2325;
/// FNV-1a prime.
pub const FNV_PRIME: u64 = 0x0000_0100_0000_01b3;

/// Is the per-turn audit fingerprint computed (the default)?
pub fn checksum_on() -> (r: bool)
    ensures
        r,
{
    true
}

/// One FNV step: xor, then multiply by the prime (wrapping).
pub open spec fn mix(h: u64, x: u64) -> u64 {
    (h ^ x).wrapping_mul(FNV_PRIME)
}

/// The four bytes of `v`, least significant first, mixed in.
pub open spec fn fnv32(h: u64, v: u32) -> u64 {
    mix(mix(mix(mix(h, (v & 0xff) as u64), ((v >> 8u32) & 0xff) as u64), ((v >> 16u32) & 0xff) as u64), ((v >> 24u32) & 0xff) as u64)
}

/// Mixes the four bytes of `val` (little endian) into `h`.
pub fn fnv_u32(h: &mut u64, val: u32)
    ensures
        *final(h) == fnv32(*old(h), val),
{
    *h = (*h ^ ((val & 0xff) as u64)).wrapping_mul(FNV_PRIME);
    *h = (*h ^ (((val >> 8u32) & 0xff) as u64)).wrapping_mul(FNV_PRIME);
    *h = (*h ^ (((val >> 16u32) & 0xff) as u64)).wrapping_mul(FNV_PRIME);
    *h = (*h ^ (((val >> 24u32) & 0xff) as u64)).wrapping_mul(FNV_PRIME);
}

/// Code of an optional nation: its id plus one, 0 for none.
pub open spec fn nation_code(o: Option<u16>) -> u32 {
    match o {
        Some(n) => (n + 1) as u32,
        None => 0,
    }
}

/// Code of a tile kind.
pub open spec fn tile_kind_code(k: TileKind) -> u64 {
    match k {
        TileKind::Ocean => 1,
        TileKind::Land => 2,
    }
}

/// Code of an optional building.
pub open spec fn building_code(b: Option<Building>) -> u64 {
    match b {
        None => 0,
        Some(Building::Industry) => 3,
        Some(Building::Commerce) => 4,
        Some(Building::Infrastructure) => 5,
        Some(Building::Education) => 6,
        Some(Building::Military) => 7,
        Some(Building::Farm) => 8,
        Some(Building::City) => 9,
        Some(Building::Port) => 10,
    }
}

/// The first `n` words of `bits` mixed in.
pub open spec fn fnv_words(h: u64, bits: Seq<u32>, n: int) -> u64
    decreases n,
{
    if n <= 0 { h } else { fnv32(fnv_words(h, bits, n - 1), bits[n - 1]) }
}

/// A tile: its ten continuous layers (bit patterns), owner, occupier, kind
/// and building.
pub open spec fn tile_step(h: u64, bits: Seq<u32>, p: Plot) -> u64 {
    let h1 = fnv_words(h, bits, 10);
    let h2 = fnv32(fnv32(h1, nation_code(p.owner)), nation_code(p.occupier));
    mix(mix(h2, tile_kind_code(p.kind)), building_code(p.building))
}

/// A nation: id, knowledge (bit pattern), tiers and stocks.
pub open spec fn nation_step(h: u64, n: Nation, knowledge: u32) -> u64 {
    let h1 = fnv32(fnv32(h, n.id as u32), knowledge);
    let h2 = mix(mix(mix(mix(h1, n.tech@[0] as u64), n.tech@[1] as u64), n.tech@[2] as u64), n.tech@[3] as u64);
    let h3 = mix(mix(mix(h2, n.money as u64), n.materials as u64), n.influence as u64);
    mix(mix(mix(h3, n.housing as u64), n.food as u64), n.manpower as u64)
}

/// A unit: id, owner, kind, position, hit points and movement.
pub open spec fn unit_step(h: u64, u: Unit) -> u64 {
    let h1 = mix(fnv32(fnv32(h, u.id), u.owner as u32), code_of(u.kind));
    fnv32(fnv32(fnv32(fnv32(h1, u.x), u.y), u.hp as u32), u.moves_left)
}

/// A carried unit: kind and hit points.
pub open spec fn carried_step(h: u64, c: CarriedUnit) -> u64 {
    fnv32(h ^ code_of(c.kind), c.hp as u32).wrapping_mul(FNV_PRIME)
}

/// The first `n` carried units of a load mixed in.
pub open spec fn load_steps(h: u64, load: Seq<CarriedUnit>, n: int) -> u64
    decreases n,
{
    if n <= 0 { h } else { carried_step(load_steps(h, load, n - 1), load[n - 1]) }
}

/// A hold: the galley's id, then its load.
pub open spec fn hold_step(h: u64, hd: Hold) -> u64 {
    load_steps(fnv32(h, hd.galley), hd.load@, hd.load@.len() as int)
}

/// A war: both sides.
pub open spec fn war_step(h: u64, w: (u16, u16)) -> u64 {
    fnv32(fnv32(h, w.0 as u32), w.1 as u32).wrapping_mul(FNV_PRIME)
}

/// A grievance: both sides and the amount (bit pattern).
pub open spec fn grievance_step(h: u64, g: (u16, u16, u32)) -> u64 {
    fnv32(fnv32(fnv32(h, g.0 as u32), g.1 as u32), g.2).wrapping_mul(FNV_PRIME)
}

pub open spec fn tiles_upto(h: u64, ps: Seq<Plot>, bits: Seq<[u32; 10]>, n: int) -> u64
    decreases n,
{
    if n <= 0 { h } else { tile_step(tiles_upto(h, ps, bits, n - 1), bits[n - 1]@, ps[n - 1]) }
}

pub open spec fn nations_upto(h: u64, ns: Seq<Nation>, kb: Seq<u32>, n: int) -> u64
    decreases n,
{
    if n <= 0 { h } else { nation_step(nations_upto(h, ns, kb, n - 1), ns[n - 1], kb[n - 1]) }
}

pub open spec fn units_upto(h: u64, us: Seq<Unit>, n: int) -> u64
    decreases n,
{
    if n <= 0 { h } else { unit_step(units_upto(h, us, n - 1), us[n - 1]) }
}

pub open spec fn holds_upto(h: u64, hs: Seq<Hold>, n: int) -> u64
    decreases n,
{
    if n <= 0 { h } else { hold_step(holds_upto(h, hs, n - 1), hs[n - 1]) }
}

pub open spec fn wars_upto(h: u64, ws: Seq<(u16, u16)>, n: int) -> u64
    decreases n,
{
    if n <= 0 { h } else { war_step(wars_upto(h, ws, n - 1), ws[n - 1]) }
}

pub open spec fn grievances_upto(h: u64, gs: Seq<(u16, u16, u32)>, n: int) -> u64
    decreases n,
{
    if n <= 0 { h } else { grievance_step(grievances_upto(h, gs, n - 1), gs[n - 1]) }
}

/// The fingerprint of a world at month `turn`: the turn, then the tiles, the
/// nations, the units (creation order), the cargo (galley order), the wars
/// and the grievances.
pub open spec fn checksum_spec(
    turn: u64,
    r: Realm,
    tile_bits: Seq<[u32; 10]>,
    knowledge_bits: Seq<u32>,
    grievances: Seq<(u16, u16, u32)>,
) -> u64 {
    let h0 = mix(FNV_OFFSET, turn);
    let h1 = tiles_upto(h0, r.plots@, tile_bits, r.plots@.len() as int);
    let h2 = nations_upto(h1, r.nations@, knowledge_bits, r.nations@.len() as int);
    let h3 = units_upto(h2, r.units@, r.units@.len() as int);
    let h4 = holds_upto(h3, r.holds@, r.holds@.len() as int);
    let h5 = wars_upto(h4, r.diplomacy@, r.diplomacy@.len() as int);
    grievances_upto(h5, grievances, grievances.len() as int)
}

/// Deterministic fingerprint of the state (FNV-1a). `tile_bits[i]` holds the
/// bit patterns of the ten continuous layers of tile `i` (elevation, mean
/// temperature, precipitation, soil fertility, temperature, current rain,
/// vegetation, population, development, devastation); `knowledge_bits[k]`
/// that of the knowledge of the `k`-th nation; `grievances` the grievances
/// (from, to, bit pattern of the amount).
pub fn checksum(
    turn: u64,
    realm: &Realm,
    tile_bits: &Vec<[u32; 10]>,
    knowledge_bits: &Vec<u32>,
    grievances: &Vec<(u16, u16, u32)>,
) -> (h: u64)
    requires
        tile_bits@.len() == realm.plots@.len(),
        knowledge_bits@.len() == realm.nations@.len(),
    ensures
        h == checksum_spec(turn, *realm, tile_bits@, knowledge_bits@, grievances@),
{
    let mut h: u64 = (FNV_OFFSET ^ turn).wrapping_mul(FNV_PRIME);
    let ghost h0 = h;
    let mut i: usize = 0;
    while i < realm.plots.len()
        invariant
            tile_bits@.len() == realm.plots@.len(),
            0 <= i <= realm.plots@.len(),
            h == tiles_upto(h0, realm.plots@, tile_bits@, i as int),
        decreases realm.plots.len() - i,
    {
        let bits = tile_bits[i];
        let p = realm.plots[i];
        let ghost hs = h;
        let mut k: usize = 0;
        while k < 10
            invariant
                0 <= k <= 10,
                h == fnv_words(hs, bits@, k as int),
            decreases 10 - k,
        {
            fnv_u32(&mut h, bits[k]);
            k = k + 1;
        }
        let oc: u32 = match p.owner {
            Some(o) => o as u32 + 1,
            None => 0,
        };
        let qc: u32 = match p.occupier {
            Some(o) => o as u32 + 1,
            None => 0,
        };
        fnv_u32(&mut h, oc);
        fnv_u32(&mut h, qc);
        let kc: u64 = match p.kind {
            TileKind::Ocean => 1,
            TileKind::Land => 2,
        };
        h = (h ^ kc).wrapping_mul(FNV_PRIME);
        let bc: u64 = match p.building {
            None => 0,
            Some(Building::Industry) => 3,
            Some(Building::Commerce) => 4,
            Some(Building::Infrastructure) => 5,
            Some(Building::Education) => 6,
            Some(Building::Military) => 7,
            Some(Building::Farm) => 8,
            Some(Building::City) => 9,
            Some(Building::Port) => 10,
        };
        h = (h ^ bc).wrapping_mul(FNV_PRIME);
        i = i + 1;
    }
    let ghost h1 = h;
    let mut i: usize = 0;
    while i < realm.nations.len()
        invariant
            knowledge_bits@.len() == realm.nations@.len(),
            0 <= i <= realm.nations@.len(),
            h == nations_upto(h1, realm.nations@, knowledge_bits@, i as int),
        decreases realm.nations.len() - i,
    {
        let n = realm.nations[i];
        fnv_u32(&mut h, n.id as u32);
        fnv_u32(&mut h, knowledge_bits[i]);
        let mut t: usize = 0;
        let ghost ht = h;
        while t < 4
            invariant
                0 <= t <= 4,
                n == realm.nations@[i as int],
                h == (if t == 0 { ht } else if t == 1 { mix(ht, n.tech@[0] as u64) } else if t == 2 {
                    mix(mix(ht, n.tech@[0] as u64), n.tech@[1] as u64) } else if t == 3 {
                    mix(mix(mix(ht, n.tech@[0] as u64), n.tech@[1] as u64), n.tech@[2] as u64) } else {
                    mix(mix(mix(mix(ht, n.tech@[0] as u64), n.tech@[1] as u64), n.tech@[2] as u64), n.tech@[3] as u64) }),
            decreases 4 - t,
        {
            h = (h ^ (n.tech[t] as u64)).wrapping_mul(FNV_PRIME);
            t = t + 1;
        }
        h = (h ^ (n.money as u64)).wrapping_mul(FNV_PRIME);
        h = (h ^ (n.materials as u64)).wrapping_mul(FNV_PRIME);
        h = (h ^ (n.influence as u64)).wrapping_mul(FNV_PRIME);
        h = (h ^ (n.housing as u64)).wrapping_mul(FNV_PRIME);
        h = (h ^ (n.food as u64)).wrapping_mul(FNV_PRIME);
        h = (h ^ (n.manpower as u64)).wrapping_mul(FNV_PRIME);
        i = i + 1;
    }
    let ghost h2 = h;
    let mut i: usize = 0;
    while i < realm.units.len()
        invariant
            0 <= i <= realm.units@.len(),
            h == units_upto(h2, realm.units@, i as int),
        decreases realm.units.len() - i,
    {
        let u = realm.units[i];
        fnv_u32(&mut h, u.id);
        fnv_u32(&mut h, u.owner as u32);
        h = (h ^ kind_code(u.kind)).wrapping_mul(FNV_PRIME);
        fnv_u32(&mut h, u.x);
        fnv_u32(&mut h, u.y);
        fnv_u32(&mut h, u.hp as u32);
        fnv_u32(&mut h, u.moves_left);
        i = i + 1;
    }
    let ghost h3 = h;
    let mut i: usize = 0;
    while i < realm.holds.len()
        invariant
            0 <= i <= realm.holds@.len(),
            h == holds_upto(h3, realm.holds@, i as int),
        decreases realm.holds.len() - i,
    {
        let hd = &realm.holds[i];
        fnv_u32(&mut h, hd.galley);
        let ghost hg = h;
        let mut k: usize = 0;
        while k < hd.load.len()
            invariant
                0 <= k <= hd.load@.len(),
                h == load_steps(hg, hd.load@, k as int),
            decreases hd.load.len() - k,
        {
            let c = hd.load[k];
            h = h ^ kind_code(c.kind);
            fnv_u32(&mut h, c.hp as u32);
            h = h.wrapping_mul(FNV_PRIME);
            k = k + 1;
        }
        i = i + 1;
    }
    let ghost h4 = h;
    let wars = realm.diplomacy.wars();
    let mut i: usize = 0;
    while i < wars.len()
        invariant
            wars@ == realm.diplomacy@,
            0 <= i <= wars@.len(),
            h == wars_upto(h4, realm.diplomacy@, i as int),
        decreases wars.len() - i,
    {
        let (a, b) = wars[i];
        fnv_u32(&mut h, a as u32);
        fnv_u32(&mut h, b as u32);
        h = h.wrapping_mul(FNV_PRIME);
        i = i + 1;
    }
    let ghost h5 = h;
    let mut i: usize = 0;
    while i < grievances.len()
        invariant
            0 <= i <= grievances@.len(),
            h == grievances_upto(h5, grievances@, i as int),
        decreases grievances.len() - i,
    {
        let (a, b, amount) = grievances[i];
        fnv_u32(&mut h, a as u32);
        fnv_u32(&mut h, b as u32);
        fnv_u32(&mut h, amount);
        h = h.wrapping_mul(FNV_PRIME);
        i = i + 1;
    }
    h
}

} // verus!
