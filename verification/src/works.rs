//! Orders on the land and on the nations' books: settling, swarming,
//! researching, endowing, building and demolishing.
//!
//! Quantities that live on the continuous layers (population, knowledge, the
//! state of a tile) are looked at by the application, which hands over the
//! verdict (`source_populous`, `affordable`) or the amount (`refund`), and
//! applies the continuous side of the events these functions produce.

use vstd::prelude::*;

use crate::nation::{Nation, ESSOR, LIEN};
use crate::path::{best_cost, lemma_reach_is_best, nb_spec, neighbors, reach_cost, range_budget, settler_costs,
    settler_costs_for, Ground, lemma_nb_in_map};
use crate::proto::{Building, Event, Rejection};
use crate::realm::{ensured, has_nation, nation_pos, Plot, Realm};
use crate::tile::TileKind;

verus! {

/// Influence spent by a swarm.
pub const SWARM_INFLUENCE: i64 = 10;

/// Construction cost of a building: (money, materials, housing). Only a city
/// costs housing.
pub open spec fn build_cost_spec(b: Building) -> (i64, i64, i64) {
    match b {
        Building::City => (100, 0, 50),
        Building::Industry => (100, 0, 0),
        Building::Commerce => (120, 20, 0),
        Building::Infrastructure => (40, 20, 0),
        Building::Education => (150, 30, 0),
        Building::Military => (120, 40, 0),
        Building::Farm => (80, 15, 0),
        Building::Port => (100, 30, 0),
    }
}

/// Construction cost of a building: (money, materials, housing).
pub fn build_cost(b: Building) -> (c: (i64, i64, i64))
    ensures
        c == build_cost_spec(b),
{
    match b {
        Building::City => (100, 0, 50),
        Building::Industry => (100, 0, 0),
        Building::Commerce => (120, 20, 0),
        Building::Infrastructure => (40, 20, 0),
        Building::Education => (150, 30, 0),
        Building::Military => (120, 40, 0),
        Building::Farm => (80, 15, 0),
        Building::Port => (100, 30, 0),
    }
}

/// Is water tile `i` a coast of `nation`: next to one of its land tiles?
pub open spec fn coastal(ps: Seq<Plot>, w: int, h: int, i: int, nation: u16) -> bool {
    exists|k: int| 0 <= k < 4 && (#[trigger] nb_spec(i, k, w, h) matches Some(v)
        && ps[v].kind == TileKind::Land && ps[v].owner == Some(nation))
}

/// `a` with `m` more money, `mat` more materials and `hou` more housing.
pub open spec fn credited(a: Nation, m: int, mat: int, hou: int) -> Nation {
    Nation {
        money: (a.money + m) as i64,
        materials: (a.materials + mat) as i64,
        housing: (a.housing + hou) as i64,
        ..a
    }
}

/// A nation only builds what it can pay for, so building never leaves its
/// money, materials or housing negative.
pub proof fn lemma_building_never_overdraws(n: Nation, b: Building)
    requires
        n.money >= build_cost_spec(b).0,
        n.materials >= build_cost_spec(b).1,
        n.housing >= build_cost_spec(b).2,
    ensures
        ({
            let (m, mat, hou) = build_cost_spec(b);
            let after = credited(n, -m, -mat, -hou);
            after.money >= 0 && after.materials >= 0 && after.housing >= 0
        }),
{
}

impl Realm {
    /// Replaces the nation at position `i` by one with the same id.
    pub fn set_nation(&mut self, i: usize, n: Nation)
        requires
            old(self).wf(),
            i < old(self).nations@.len(),
            n.id == old(self).nations@[i as int].id,
        ensures
            final(self).wf(),
            final(self).nations@ == old(self).nations@.update(i as int, n),
            final(self).same_but_nations(old(self)),
    {
        self.nations.set(i, n);
        proof {
            assert forall|a: int, b: int|
                0 <= a < self.nations@.len() && 0 <= b < self.nations@.len() && a != b
                    implies #[trigger] self.nations@[a].id != #[trigger] self.nations@[b].id by {
                assert(self.nations@[a].id == old(self).nations@[a].id);
                assert(self.nations@[b].id == old(self).nations@[b].id);
            }
        }
    }

    /// Replaces the plot of tile `i`.
    pub fn set_plot(&mut self, i: usize, p: Plot)
        requires
            old(self).wf(),
            i < old(self).plots@.len(),
        ensures
            final(self).wf(),
            final(self).plots@ == old(self).plots@.update(i as int, p),
            final(self).width == old(self).width,
            final(self).height == old(self).height,
            final(self).nations == old(self).nations,
            final(self).diplomacy == old(self).diplomacy,
            final(self).units == old(self).units,
            final(self).next_unit_id == old(self).next_unit_id,
            final(self).holds == old(self).holds,
    {
        self.plots.set(i, p);
    }

    /// Is water tile `i` a coast of `nation` (next to one of its land tiles)?
    pub fn is_coastal_for(&self, i: usize, nation: u16) -> (r: bool)
        requires
            self.wf(),
            i < self.plots@.len(),
        ensures
            r == coastal(self.plots@, self.width as int, self.height as int, i as int, nation),
    {
        let nbs = neighbors(i, self.width, self.height);
        let mut k: usize = 0;
        while k < 4
            invariant
                self.wf(),
                i < self.plots@.len(),
                0 <= k <= 4,
                forall|k2: int| 0 <= k2 < 4 ==> crate::path::opt_int(#[trigger] nbs@[k2])
                    == nb_spec(i as int, k2, self.width as int, self.height as int),
                forall|k2: int| 0 <= k2 < k ==> !(#[trigger] nb_spec(i as int, k2, self.width as int, self.height as int) matches Some(v)
                    && self.plots@[v].kind == TileKind::Land && self.plots@[v].owner == Some(nation)),
            decreases 4 - k,
        {
            proof {
                lemma_nb_in_map(i as int, k as int, self.width as int, self.height as int);
            }
            if let Some(v) = nbs[k] {
                if self.plots[v].kind == TileKind::Land && self.plots[v].owner == Some(nation) {
                    return true;
                }
            }
            k = k + 1;
        }
        false
    }

    /// Reason (checked in this order) why a building is refused on (x, y)
    /// before the nation's means are looked at: a port goes on a coastal water
    /// tile not owned by another nation; anything else on an owned land tile.
    pub open spec fn build_site_refusal(&self, x: u32, y: u32, nation: u16, b: Building) -> Option<Rejection> {
        if x >= self.width || y >= self.height {
            Some(Rejection::OutOfMap)
        } else {
            let i = self.idx(x, y);
            let p = self.plots@[i];
            if p.building is Some {
                Some(Rejection::AlreadyBuilt)
            } else if b == Building::Port {
                if p.kind != TileKind::Ocean {
                    Some(Rejection::PortNeedsWater)
                } else if !coastal(self.plots@, self.width as int, self.height as int, i, nation) {
                    Some(Rejection::NotCoast)
                } else if p.owner matches Some(o) && o != nation {
                    Some(Rejection::WaterOwned)
                } else {
                    None
                }
            } else if p.owner != Some(nation) {
                Some(Rejection::NotOwned)
            } else if p.kind != TileKind::Land {
                Some(Rejection::LandOnly)
            } else {
                None
            }
        }
    }

    /// Builds on a free tile if the nation can pay (money, materials,
    /// housing). A port claims its water tile. (Founding a city also brings
    /// settlers: that is the population's side, kept by the application.)
    pub fn build(&mut self, x: u32, y: u32, nation: u16, b: Building) -> (events: Vec<Event>)
        requires
            old(self).wf(),
        ensures
            final(self).wf(),
            match old(self).build_site_refusal(x, y, nation, b) {
                Some(reason) => {
                    &&& events@ == seq![Event::CommandRejected { reason }]
                    &&& *final(self) == *old(self)
                },
                None => {
                    let ns = ensured(old(self).nations@, nation);
                    let k = nation_pos(ns, nation);
                    let (m, mat, hou) = build_cost_spec(b);
                    let i = old(self).idx(x, y);
                    if ns[k].money < m || ns[k].materials < mat || ns[k].housing < hou {
                        &&& events@ == seq![Event::CommandRejected { reason: Rejection::NoResources }]
                        &&& final(self).nations@ == ns
                        &&& final(self).same_but_nations(old(self))
                    } else {
                        &&& events@ == seq![Event::Built { x, y, nation, building: b }]
                        &&& final(self).nations@ == ns.update(k, credited(ns[k], -m, -mat, -hou))
                        &&& final(self).plots@ == old(self).plots@.update(i,
                            Plot { owner: Some(nation), building: Some(b), ..old(self).plots@[i] })
                        &&& final(self).width == old(self).width
                        &&& final(self).height == old(self).height
                        &&& final(self).diplomacy == old(self).diplomacy
                        &&& final(self).units == old(self).units
                        &&& final(self).next_unit_id == old(self).next_unit_id
                        &&& final(self).holds == old(self).holds
                    }
                },
            },
    {
        if x >= self.width || y >= self.height {
            return vec![Event::CommandRejected { reason: Rejection::OutOfMap }];
        }
        let i = self.index(x, y);
        let p = self.plots[i];
        if p.building.is_some() {
            return vec![Event::CommandRejected { reason: Rejection::AlreadyBuilt }];
        }
        if b == Building::Port {
            if p.kind != TileKind::Ocean {
                return vec![Event::CommandRejected { reason: Rejection::PortNeedsWater }];
            }
            if !self.is_coastal_for(i, nation) {
                return vec![Event::CommandRejected { reason: Rejection::NotCoast }];
            }
            if let Some(o) = p.owner {
                if o != nation {
                    return vec![Event::CommandRejected { reason: Rejection::WaterOwned }];
                }
            }
        } else {
            if p.owner != Some(nation) {
                return vec![Event::CommandRejected { reason: Rejection::NotOwned }];
            }
            if p.kind != TileKind::Land {
                return vec![Event::CommandRejected { reason: Rejection::LandOnly }];
            }
        }
        let (m, mat, hou) = build_cost(b);
        let ni = self.ensure_nation(nation);
        let n = self.nations[ni];
        if n.money < m || n.materials < mat || n.housing < hou {
            return vec![Event::CommandRejected { reason: Rejection::NoResources }];
        }
        self.set_nation(ni, Nation { money: n.money - m, materials: n.materials - mat, housing: n.housing - hou, ..n });
        self.set_plot(i, Plot { owner: Some(nation), building: Some(b), ..p });
        vec![Event::Built { x, y, nation, building: b }]
    }

    /// Reason (checked in this order) why a demolition is refused.
    pub open spec fn demolish_refusal(&self, x: u32, y: u32, nation: u16) -> Option<Rejection> {
        if x >= self.width || y >= self.height {
            Some(Rejection::OutOfMap)
        } else if self.plots@[self.idx(x, y)].owner != Some(nation) {
            Some(Rejection::NotOwned)
        } else if self.plots@[self.idx(x, y)].building is None {
            Some(Rejection::NothingToDemolish)
        } else {
            None
        }
    }

    /// Demolishes the building of an owned tile; the tile becomes free again.
    /// The nation is refunded `refund` (money, materials, housing): half the
    /// building's cost scaled by the state of the tile, which the application
    /// computes from its continuous devastation layer.
    pub fn demolish(&mut self, x: u32, y: u32, nation: u16, refund: (i64, i64, i64)) -> (events: Vec<Event>)
        requires
            old(self).wf(),
            0 <= refund.0,
            0 <= refund.1,
            0 <= refund.2,
            ({
                let ns = ensured(old(self).nations@, nation);
                let a = ns[nation_pos(ns, nation)];
                &&& a.money + refund.0 <= i64::MAX
                &&& a.materials + refund.1 <= i64::MAX
                &&& a.housing + refund.2 <= i64::MAX
            }),
        ensures
            final(self).wf(),
            match old(self).demolish_refusal(x, y, nation) {
                Some(reason) => {
                    &&& events@ == seq![Event::CommandRejected { reason }]
                    &&& *final(self) == *old(self)
                },
                None => {
                    let ns = ensured(old(self).nations@, nation);
                    let k = nation_pos(ns, nation);
                    let i = old(self).idx(x, y);
                    let b = old(self).plots@[i].building->0;
                    &&& events@ == seq![Event::Demolished { x, y, building: b, refund: refund.0 }]
                    &&& final(self).nations@ == ns.update(k, credited(ns[k], refund.0 as int, refund.1 as int, refund.2 as int))
                    &&& final(self).plots@ == old(self).plots@.update(i, Plot { building: None, ..old(self).plots@[i] })
                    &&& final(self).width == old(self).width
                    &&& final(self).height == old(self).height
                    &&& final(self).diplomacy == old(self).diplomacy
                    &&& final(self).units == old(self).units
                    &&& final(self).next_unit_id == old(self).next_unit_id
                    &&& final(self).holds == old(self).holds
                },
            },
    {
        if x >= self.width || y >= self.height {
            return vec![Event::CommandRejected { reason: Rejection::OutOfMap }];
        }
        let i = self.index(x, y);
        let p = self.plots[i];
        if p.owner != Some(nation) {
            return vec![Event::CommandRejected { reason: Rejection::NotOwned }];
        }
        let b = match p.building {
            Some(b) => b,
            None => {
                return vec![Event::CommandRejected { reason: Rejection::NothingToDemolish }];
            },
        };
        let ni = self.ensure_nation(nation);
        let n = self.nations[ni];
        proof {
            let ns = ensured(old(self).nations@, nation);
            if ni < old(self).nations@.len() {
                assert(n == old(self).nations@[ni as int]);
            }
        }
        self.set_nation(ni, Nation {
            money: n.money + refund.0,
            materials: n.materials + refund.1,
            housing: n.housing + refund.2,
            ..n
        });
        self.set_plot(i, Plot { building: None, ..p });
        vec![Event::Demolished { x, y, building: b, refund: refund.0 }]
    }

    /// Reason (checked in this order) why settling is refused.
    pub open spec fn settle_refusal(&self, x: u32, y: u32, nation: u16) -> Option<Rejection> {
        if x >= self.width || y >= self.height {
            Some(Rejection::OutOfMap)
        } else {
            let p = self.plots@[self.idx(x, y)];
            if p.kind != TileKind::Land {
                Some(Rejection::WaterTile)
            } else if p.owner matches Some(o) && o != nation {
                Some(Rejection::AlreadyOwned)
            } else {
                None
            }
        }
    }

    /// Settles a starting population of `nation` on a land tile that no other
    /// nation owns: the nation comes into being if needed and owns the tile.
    /// (The settlers themselves are the population's side, kept by the
    /// application.)
    pub fn settle(&mut self, x: u32, y: u32, nation: u16, population: u32) -> (events: Vec<Event>)
        requires
            old(self).wf(),
        ensures
            final(self).wf(),
            match old(self).settle_refusal(x, y, nation) {
                Some(reason) => {
                    &&& events@ == seq![Event::CommandRejected { reason }]
                    &&& *final(self) == *old(self)
                },
                None => {
                    let i = old(self).idx(x, y);
                    &&& events@ == seq![Event::Settled { nation, x, y, population }]
                    &&& final(self).nations@ == ensured(old(self).nations@, nation)
                    &&& final(self).plots@ == old(self).plots@.update(i, Plot { owner: Some(nation), ..old(self).plots@[i] })
                    &&& final(self).width == old(self).width
                    &&& final(self).height == old(self).height
                    &&& final(self).diplomacy == old(self).diplomacy
                    &&& final(self).units == old(self).units
                    &&& final(self).next_unit_id == old(self).next_unit_id
                    &&& final(self).holds == old(self).holds
                },
            },
    {
        if x >= self.width || y >= self.height {
            return vec![Event::CommandRejected { reason: Rejection::OutOfMap }];
        }
        let i = self.index(x, y);
        let p = self.plots[i];
        if p.kind != TileKind::Land {
            return vec![Event::CommandRejected { reason: Rejection::WaterTile }];
        }
        if let Some(o) = p.owner {
            if o != nation {
                return vec![Event::CommandRejected { reason: Rejection::AlreadyOwned }];
            }
        }
        self.ensure_nation(nation);
        self.set_plot(i, Plot { owner: Some(nation), ..p });
        vec![Event::Settled { nation, x, y, population }]
    }

    /// Tier reached by `nation` in `branch` (0 for a nation not yet created);
    /// `None` for a branch that does not exist.
    pub open spec fn tier_spec(&self, nation: u16, branch: u8) -> Option<u8> {
        if branch >= 4 {
            None
        } else if has_nation(self.nations@, nation) {
            Some(self.nations@[nation_pos(self.nations@, nation)].tech@[branch as int])
        } else {
            Some(0)
        }
    }

    /// Tier reached by `nation` in `branch` (see [`Realm::tier_spec`]).
    pub fn tier(&self, nation: u16, branch: u8) -> (t: Option<u8>)
        requires
            self.wf(),
        ensures
            t == self.tier_spec(nation, branch),
    {
        if branch >= 4 {
            return None;
        }
        match self.nation_index(nation) {
            Some(i) => Some(self.nations[i].tech[branch as usize]),
            None => Some(0),
        }
    }

    /// Research: climbs one tier of a branch. The knowledge it costs is held by
    /// the application, which says whether the nation can afford this tier.
    pub fn research(&mut self, nation: u16, branch: u8, affordable: bool) -> (events: Vec<Event>)
        requires
            old(self).wf(),
            old(self).tier_spec(nation, branch) matches Some(t) ==> t < 255,
        ensures
            final(self).wf(),
            branch >= 4 ==> {
                &&& events@ == seq![Event::CommandRejected { reason: Rejection::InvalidBranch }]
                &&& *final(self) == *old(self)
            },
            branch < 4 ==> {
                let ns = ensured(old(self).nations@, nation);
                let k = nation_pos(ns, nation);
                let tier = ns[k].tech@[branch as int];
                &&& final(self).same_but_nations(old(self))
                &&& !affordable ==> {
                    &&& events@ == seq![Event::CommandRejected { reason: Rejection::NotEnoughKnowledge }]
                    &&& final(self).nations@ == ns
                }
                &&& affordable ==> {
                    &&& events@ == seq![Event::Researched { nation, branch, tier: (tier + 1) as u8 }]
                    &&& final(self).nations@ == ns.update(k, Nation { tech: final(self).nations@[k].tech, ..ns[k] })
                    &&& final(self).nations@[k].tech@ == ns[k].tech@.update(branch as int, (tier + 1) as u8)
                }
            },
    {
        if branch >= 4 {
            return vec![Event::CommandRejected { reason: Rejection::InvalidBranch }];
        }
        let ni = self.ensure_nation(nation);
        let n = self.nations[ni];
        let tier = n.tech[branch as usize];
        if !affordable {
            return vec![Event::CommandRejected { reason: Rejection::NotEnoughKnowledge }];
        }
        proof {
            if ni < old(self).nations@.len() {
                assert(n == old(self).nations@[ni as int]);
            }
        }
        let mut tech = n.tech;
        tech.set(branch as usize, tier + 1);
        self.set_nation(ni, Nation { tech, ..n });
        vec![Event::Researched { nation, branch, tier: tier + 1 }]
    }

    /// A grievance stirred up by the Director is refused when it is reflexive
    /// or when either nation does not exist; `None` lets it through.
    pub fn grievance_refusal(&self, from: u16, to: u16) -> (r: Option<Rejection>)
        requires
            self.wf(),
        ensures
            r is Some <==> (from == to || !has_nation(self.nations@, from) || !has_nation(self.nations@, to)),
            r matches Some(reason) ==> reason == Rejection::InvalidGrievance,
    {
        if from == to || self.nation_index(from).is_none() || self.nation_index(to).is_none() {
            Some(Rejection::InvalidGrievance)
        } else {
            None
        }
    }

    /// Grants resources to a nation (genesis): additive, a negative grant counts
    /// as nothing. The nation comes into being if needed.
    pub fn endow(&mut self, nation: u16, money: i64, materials: i64, influence: i64, housing: i64, food: i64)
        -> (events: Vec<Event>)
        requires
            old(self).wf(),
            ({
                let ns = ensured(old(self).nations@, nation);
                let a = ns[nation_pos(ns, nation)];
                &&& a.money + (if money > 0 { money as int } else { 0 }) <= i64::MAX
                &&& a.materials + (if materials > 0 { materials as int } else { 0 }) <= i64::MAX
                &&& a.influence + (if influence > 0 { influence as int } else { 0 }) <= i64::MAX
                &&& a.housing + (if housing > 0 { housing as int } else { 0 }) <= i64::MAX
                &&& a.food + (if food > 0 { food as int } else { 0 }) <= i64::MAX
            }),
        ensures
            final(self).wf(),
            ({
                let ns = ensured(old(self).nations@, nation);
                let k = nation_pos(ns, nation);
                let a = ns[k];
                &&& events@ == seq![Event::Endowed { nation }]
                &&& final(self).nations@ == ns.update(k, Nation {
                    money: (a.money + if money > 0 { money as int } else { 0 }) as i64,
                    materials: (a.materials + if materials > 0 { materials as int } else { 0 }) as i64,
                    influence: (a.influence + if influence > 0 { influence as int } else { 0 }) as i64,
                    housing: (a.housing + if housing > 0 { housing as int } else { 0 }) as i64,
                    food: (a.food + if food > 0 { food as int } else { 0 }) as i64,
                    ..a
                })
                &&& final(self).same_but_nations(old(self))
            }),
    {
        let ni = self.ensure_nation(nation);
        let n = self.nations[ni];
        proof {
            if ni < old(self).nations@.len() {
                assert(n == old(self).nations@[ni as int]);
            }
        }
        self.set_nation(ni, Nation {
            money: n.money + if money > 0 { money } else { 0 },
            materials: n.materials + if materials > 0 { materials } else { 0 },
            influence: n.influence + if influence > 0 { influence } else { 0 },
            housing: n.housing + if housing > 0 { housing } else { 0 },
            food: n.food + if food > 0 { food } else { 0 },
            ..n
        });
        vec![Event::Endowed { nation }]
    }

    /// Reason (checked in this order) why a swarm from (fx, fy) to (tx, ty) is
    /// refused before the target's owner is looked at. `source_populous` says
    /// whether the source holds at least a thousand people.
    pub open spec fn swarm_refusal(&self, fx: u32, fy: u32, tx: u32, ty: u32, source_populous: bool) -> Option<Rejection> {
        if fx >= self.width || fy >= self.height || tx >= self.width || ty >= self.height {
            Some(Rejection::OutOfMap)
        } else if self.idx(fx, fy) == self.idx(tx, ty) {
            Some(Rejection::SameTile)
        } else if self.plots@[self.idx(fx, fy)].owner is None {
            Some(Rejection::SourceNotOwned)
        } else if !source_populous {
            Some(Rejection::SourceTooSmall)
        } else if self.plots@[self.idx(tx, ty)].kind != TileKind::Land {
            Some(Rejection::WaterTarget)
        } else {
            None
        }
    }

    /// Expansion: half of the source's population settles a land tile within
    /// the nation's range (its growth branch sets the budget, its sea branch
    /// lets settlers cross water), for an influence cost. A target owned by
    /// another nation is not settled: a grievance is raised instead. The
    /// population moved is the application's side; `ground` rates every tile.
    pub fn swarm(&mut self, fx: u32, fy: u32, tx: u32, ty: u32, source_populous: bool, ground: &Vec<Ground>)
        -> (events: Vec<Event>)
        requires
            old(self).wf(),
            ground@.len() == old(self).plots@.len(),
            forall|i: int| 0 <= i < ground@.len() ==> (#[trigger] ground@[i]).wf(),
        ensures
            final(self).wf(),
            final(self).plots@.len() == old(self).plots@.len(),
            forall|i: int| 0 <= i < old(self).plots@.len() && #[trigger] final(self).plots@[i] != old(self).plots@[i]
                ==> old(self).plots@[i].kind == TileKind::Land && final(self).plots@[i].kind == TileKind::Land,
            match old(self).swarm_refusal(fx, fy, tx, ty, source_populous) {
                Some(reason) => {
                    &&& events@ == seq![Event::CommandRejected { reason }]
                    &&& *final(self) == *old(self)
                },
                None => {
                    let from = old(self).idx(fx, fy);
                    let to = old(self).idx(tx, ty);
                    let nation = old(self).plots@[from].owner->0;
                    let target = old(self).plots@[to];
                    if target.owner matches Some(o) && o != nation {
                        &&& events@ == seq![Event::GrievanceRaised { from: nation, to: target.owner->0, x: tx, y: ty }]
                        &&& *final(self) == *old(self)
                    } else {
                        let ns = ensured(old(self).nations@, nation);
                        let k = nation_pos(ns, nation);
                        let budget = 60 + 40 * ns[k].tech@[ESSOR as int];
                        let costs = settler_costs_for(ground@, ns[k].tech@[LIEN as int]);
                        let reach = best_cost(costs, old(self).width as int, old(self).height as int, from, to, budget as u32);
                        if ns[k].influence < SWARM_INFLUENCE {
                            &&& events@ == seq![Event::CommandRejected { reason: Rejection::NotEnoughInfluence }]
                            &&& final(self).nations@ == ns
                            &&& final(self).same_but_nations(old(self))
                        } else if reach is None {
                            &&& events@ == seq![Event::CommandRejected { reason: Rejection::OutOfRange }]
                            &&& final(self).nations@ == ns
                            &&& final(self).same_but_nations(old(self))
                        } else {
                            &&& events@ == seq![Event::Swarmed { nation, from_x: fx, from_y: fy, to_x: tx, to_y: ty }]
                            &&& final(self).nations@ == ns.update(k,
                                Nation { influence: (ns[k].influence - SWARM_INFLUENCE) as i64, ..ns[k] })
                            &&& final(self).plots@ == old(self).plots@.update(to, Plot { owner: Some(nation), ..target })
                            &&& final(self).width == old(self).width
                            &&& final(self).height == old(self).height
                            &&& final(self).diplomacy == old(self).diplomacy
                            &&& final(self).units == old(self).units
                            &&& final(self).next_unit_id == old(self).next_unit_id
                            &&& final(self).holds == old(self).holds
                        }
                    }
                },
            },
    {
        if fx >= self.width || fy >= self.height || tx >= self.width || ty >= self.height {
            return vec![Event::CommandRejected { reason: Rejection::OutOfMap }];
        }
        let from = self.index(fx, fy);
        let to = self.index(tx, ty);
        if from == to {
            return vec![Event::CommandRejected { reason: Rejection::SameTile }];
        }
        let nation = match self.plots[from].owner {
            Some(o) => o,
            None => {
                return vec![Event::CommandRejected { reason: Rejection::SourceNotOwned }];
            },
        };
        if !source_populous {
            return vec![Event::CommandRejected { reason: Rejection::SourceTooSmall }];
        }
        let target = self.plots[to];
        if target.kind != TileKind::Land {
            return vec![Event::CommandRejected { reason: Rejection::WaterTarget }];
        }
        if let Some(o) = target.owner {
            if o != nation {
                return vec![Event::GrievanceRaised { from: nation, to: o, x: tx, y: ty }];
            }
        }
        let ni = self.ensure_nation(nation);
        let n = self.nations[ni];
        if n.influence < SWARM_INFLUENCE {
            return vec![Event::CommandRejected { reason: Rejection::NotEnoughInfluence }];
        }
        let budget = range_budget(n.tech[ESSOR]);
        let costs = settler_costs(ground, n.tech[LIEN]);
        let reach = reach_cost(&costs, self.width, self.height, from, to, budget);
        proof {
            lemma_reach_is_best(costs@, self.width as int, self.height as int, from as int, to as int, budget, reach);
        }
        if reach.is_none() {
            return vec![Event::CommandRejected { reason: Rejection::OutOfRange }];
        }
        self.set_nation(ni, Nation { influence: n.influence - SWARM_INFLUENCE, ..n });
        self.set_plot(to, Plot { owner: Some(nation), ..target });
        vec![Event::Swarmed { nation, from_x: fx, from_y: fy, to_x: tx, to_y: ty }]
    }

}

/// A swarm is granted only onto a land tile of the map: a swarm onto water
/// is refused.
pub proof fn lemma_swarm_only_onto_land(r: Realm, fx: u32, fy: u32, tx: u32, ty: u32, source_populous: bool)
    ensures
        r.swarm_refusal(fx, fy, tx, ty, source_populous) is None
            ==> tx < r.width && ty < r.height && r.plots@[r.idx(tx, ty)].kind == TileKind::Land,
        tx < r.width && ty < r.height && r.plots@[r.idx(tx, ty)].kind != TileKind::Land
            ==> r.swarm_refusal(fx, fy, tx, ty, source_populous) is Some,
{
}

} // verus!
