//! The research tree: a graph of technologies with prerequisites. A nation holds
//! a set of unlocked techs as a bitmask (bit `i` = tech of id `i`). A tech can be
//! researched when all its prerequisites are held. Effects are a pure function of
//! the held techs, folded over the table in a fixed order.
//!
//! Bonuses are counted in hundredths (percent): `Capacity(40)` is +40 %.

use vstd::prelude::*;

verus! {

/// Number of technologies in the tree (ids are `0..TECH_COUNT`).
pub const TECH_COUNT: u16 = 22;

/// Elementary effect of a technology (percent bonuses add up; unlocks are ORs).
#[derive(Debug, Clone, Copy, PartialEq, Eq, Structural)]
pub enum Effect {
    /// + city carrying capacity (percent).
    Capacity(u32),
    /// + expansion range (terrain-cost budget).
    Range(u32),
    /// + influence flow (percent).
    Influence(u32),
    /// + industry output (percent).
    Industry(u32),
    /// + commerce output (percent).
    Commerce(u32),
    /// + farm output (percent).
    Farm(u32),
    /// + science output (percent).
    Science(u32),
    /// + manpower output (percent).
    Manpower(u32),
    /// + labour efficiency: required jobs reduced by this percentage.
    JobEff(u32),
    /// + industrial pollution (percent).
    Pollution(u32),
    /// Unlocks crossing water (naval units, overseas expansion).
    Naval,
    /// Unlocks archers.
    Archer,
    /// Unlocks cavalry.
    Cavalry,
    /// + hit points of recruited units.
    UnitHp(i32),
    /// + damage of units.
    UnitDmg(i32),
}

/// A technology of the tree.
#[derive(Debug, Clone)]
pub struct Tech {
    /// Stable identifier (= bit number in the mask).
    pub id: u16,
    /// Displayed name.
    pub name: &'static str,
    /// Age tier (1..=4).
    pub age: u8,
    /// Knowledge required to unlock it.
    pub cost: u32,
    /// Prerequisites (ids): all must be held.
    pub prereqs: Vec<u16>,
    /// Plain-language effect.
    pub blurb: &'static str,
    /// Game effects.
    pub effects: Vec<Effect>,
}
/// Prerequisites of tech `id` (empty for an unknown id).
pub open spec fn tech_prereqs(id: u16) -> Seq<u16> {
    if id == 0 { Seq::empty() }
    else if id == 1 { Seq::empty() }
    else if id == 2 { Seq::empty() }
    else if id == 3 { Seq::empty() }
    else if id == 4 { Seq::empty() }
    else if id == 5 { seq![0u16] }
    else if id == 6 { seq![1u16] }
    else if id == 7 { seq![4u16] }
    else if id == 8 { seq![3u16] }
    else if id == 9 { seq![2u16] }
    else if id == 10 { seq![1u16, 4u16] }
    else if id == 11 { seq![5u16] }
    else if id == 12 { seq![7u16, 10u16] }
    else if id == 13 { seq![6u16] }
    else if id == 14 { seq![9u16] }
    else if id == 15 { seq![8u16] }
    else if id == 16 { seq![7u16] }
    else if id == 17 { seq![13u16] }
    else if id == 18 { seq![12u16] }
    else if id == 19 { seq![11u16] }
    else if id == 20 { seq![12u16] }
    else if id == 21 { seq![15u16] }
    else { Seq::empty() }
}

/// Effects of tech `id` (empty for an unknown id).
pub open spec fn tech_effects(id: u16) -> Seq<Effect> {
    if id == 0 { seq![Effect::Farm(50)] }
    else if id == 1 { seq![Effect::Capacity(40)] }
    else if id == 2 { seq![Effect::Range(40)] }
    else if id == 3 { seq![Effect::Archer, Effect::UnitHp(10)] }
    else if id == 4 { seq![Effect::Science(50)] }
    else if id == 5 { seq![Effect::Farm(60)] }
    else if id == 6 { seq![Effect::Capacity(50)] }
    else if id == 7 { seq![Effect::Commerce(50), Effect::Influence(25)] }
    else if id == 8 { seq![Effect::Cavalry, Effect::UnitHp(10), Effect::UnitDmg(10)] }
    else if id == 9 { seq![Effect::Naval] }
    else if id == 10 { seq![Effect::JobEff(20), Effect::Influence(25)] }
    else if id == 11 { seq![Effect::Farm(80)] }
    else if id == 12 { seq![Effect::Industry(50), Effect::Commerce(50), Effect::JobEff(20)] }
    else if id == 13 { seq![Effect::Capacity(60), Effect::Range(60)] }
    else if id == 14 { seq![Effect::Range(80), Effect::Influence(25)] }
    else if id == 15 { seq![Effect::UnitHp(30), Effect::UnitDmg(20), Effect::Manpower(30)] }
    else if id == 16 { seq![Effect::Science(70)] }
    else if id == 17 { seq![Effect::Capacity(100)] }
    else if id == 18 { seq![Effect::Industry(100), Effect::Pollution(50)] }
    else if id == 19 { seq![Effect::Farm(100), Effect::Manpower(20)] }
    else if id == 20 { seq![Effect::Commerce(70), Effect::Influence(50)] }
    else if id == 21 { seq![Effect::Manpower(70), Effect::UnitHp(20)] }
    else { Seq::empty() }
}

/// Age of tech `id`.
pub open spec fn tech_age(id: u16) -> u8 {
    if id <= 4 { 1 } else if id <= 10 { 2 } else if id <= 16 { 3 } else { 4 }
}

/// Knowledge cost of tech `id`.
pub open spec fn tech_cost(id: u16) -> u32 {
    if id == 0 { 30 }
    else if id == 1 { 30 }
    else if id == 2 { 30 }
    else if id == 3 { 40 }
    else if id == 4 { 30 }
    else if id == 5 { 70 }
    else if id == 6 { 70 }
    else if id == 7 { 70 }
    else if id == 8 { 80 }
    else if id == 9 { 70 }
    else if id == 10 { 80 }
    else if id == 11 { 140 }
    else if id == 12 { 150 }
    else if id == 13 { 140 }
    else if id == 14 { 130 }
    else if id == 15 { 150 }
    else if id == 16 { 140 }
    else if id == 17 { 250 }
    else if id == 18 { 280 }
    else if id == 19 { 250 }
    else if id == 20 { 270 }
    else if id == 21 { 280 }
    else { 0 }
}

/// Is tech `id` held in `mask`?
pub open spec fn has_tech(mask: u64, id: u16) -> bool {
    mask & (1u64 << id) != 0
}

/// The technology of id `id`, if it exists.
pub fn get(id: u16) -> (r: Option<Tech>)
    ensures
        r is Some <==> id < TECH_COUNT,
        r matches Some(t) ==> {
            &&& t.id == id
            &&& t.age == tech_age(id)
            &&& t.cost == tech_cost(id)
            &&& t.prereqs@ == tech_prereqs(id)
            &&& t.effects@ == tech_effects(id)
        },
{
    match id {
        0 => Some(Tech { id: 0, name: "Agriculture", age: 1, cost: 30, prereqs: Vec::new(), blurb: "Fermes +50 % de nourriture.", effects: vec![Effect::Farm(50)] }),
        1 => Some(Tech { id: 1, name: "Maçonnerie", age: 1, cost: 30, prereqs: Vec::new(), blurb: "Villes +40 % d'habitants.", effects: vec![Effect::Capacity(40)] }),
        2 => Some(Tech { id: 2, name: "Roue", age: 1, cost: 30, prereqs: Vec::new(), blurb: "Expansion +40 de portée.", effects: vec![Effect::Range(40)] }),
        3 => Some(Tech { id: 3, name: "Bronze", age: 1, cost: 40, prereqs: Vec::new(), blurb: "Débloque les Archers ; unités +10 PV.", effects: vec![Effect::Archer, Effect::UnitHp(10)] }),
        4 => Some(Tech { id: 4, name: "Écriture", age: 1, cost: 30, prereqs: Vec::new(), blurb: "Éducation +50 % de savoir.", effects: vec![Effect::Science(50)] }),
        5 => Some(Tech { id: 5, name: "Irrigation", age: 2, cost: 70, prereqs: vec![0u16], blurb: "Fermes +60 % (cumulé).", effects: vec![Effect::Farm(60)] }),
        6 => Some(Tech { id: 6, name: "Aqueducs", age: 2, cost: 70, prereqs: vec![1u16], blurb: "Villes +50 % (cumulé).", effects: vec![Effect::Capacity(50)] }),
        7 => Some(Tech { id: 7, name: "Monnaie", age: 2, cost: 70, prereqs: vec![4u16], blurb: "Commerce +50 %, influence +25 %.", effects: vec![Effect::Commerce(50), Effect::Influence(25)] }),
        8 => Some(Tech { id: 8, name: "Forge", age: 2, cost: 80, prereqs: vec![3u16], blurb: "Débloque la Cavalerie ; unités +10 PV/+10 dégâts.", effects: vec![Effect::Cavalry, Effect::UnitHp(10), Effect::UnitDmg(10)] }),
        9 => Some(Tech { id: 9, name: "Voile", age: 2, cost: 70, prereqs: vec![2u16], blurb: "Franchit l'eau : ports, galères, expansion outre-mer.", effects: vec![Effect::Naval] }),
        10 => Some(Tech { id: 10, name: "Bureaucratie", age: 2, cost: 80, prereqs: vec![1u16, 4u16], blurb: "Postes requis -20 % ; influence +25 %.", effects: vec![Effect::JobEff(20), Effect::Influence(25)] }),
        11 => Some(Tech { id: 11, name: "Assolement", age: 3, cost: 140, prereqs: vec![5u16], blurb: "Fermes +80 % (cumulé).", effects: vec![Effect::Farm(80)] }),
        12 => Some(Tech { id: 12, name: "Guildes", age: 3, cost: 150, prereqs: vec![7u16, 10u16], blurb: "Industrie & commerce +50 % ; postes -20 %.", effects: vec![Effect::Industry(50), Effect::Commerce(50), Effect::JobEff(20)] }),
        13 => Some(Tech { id: 13, name: "Ingénierie", age: 3, cost: 140, prereqs: vec![6u16], blurb: "Villes +60 % ; expansion +60.", effects: vec![Effect::Capacity(60), Effect::Range(60)] }),
        14 => Some(Tech { id: 14, name: "Cartographie", age: 3, cost: 130, prereqs: vec![9u16], blurb: "Expansion +80 ; influence +25 %.", effects: vec![Effect::Range(80), Effect::Influence(25)] }),
        15 => Some(Tech { id: 15, name: "Chevalerie", age: 3, cost: 150, prereqs: vec![8u16], blurb: "Unités +30 PV/+20 dégâts ; manpower +30 %.", effects: vec![Effect::UnitHp(30), Effect::UnitDmg(20), Effect::Manpower(30)] }),
        16 => Some(Tech { id: 16, name: "Université", age: 3, cost: 140, prereqs: vec![7u16], blurb: "Éducation +70 % de savoir.", effects: vec![Effect::Science(70)] }),
        17 => Some(Tech { id: 17, name: "Hygiène", age: 4, cost: 250, prereqs: vec![13u16], blurb: "Villes +100 % (mégapoles).", effects: vec![Effect::Capacity(100)] }),
        18 => Some(Tech { id: 18, name: "Industrialisation", age: 4, cost: 280, prereqs: vec![12u16], blurb: "Industrie +100 %, mais pollution +50 %.", effects: vec![Effect::Industry(100), Effect::Pollution(50)] }),
        19 => Some(Tech { id: 19, name: "Mécanisation", age: 4, cost: 250, prereqs: vec![11u16], blurb: "Fermes +100 % ; manpower +20 %.", effects: vec![Effect::Farm(100), Effect::Manpower(20)] }),
        20 => Some(Tech { id: 20, name: "Banque", age: 4, cost: 270, prereqs: vec![12u16], blurb: "Commerce +70 %, influence +50 %.", effects: vec![Effect::Commerce(70), Effect::Influence(50)] }),
        21 => Some(Tech { id: 21, name: "Conscription", age: 4, cost: 280, prereqs: vec![15u16], blurb: "Manpower +70 % ; unités +20 PV.", effects: vec![Effect::Manpower(70), Effect::UnitHp(20)] }),
        _ => None,
    }
}

/// Is tech `id` held in `mask`?
pub fn is_researched(mask: u64, id: u16) -> (r: bool)
    requires
        id < 64,
    ensures
        r == has_tech(mask, id),
{
    mask & (1u64 << id) != 0
}

/// Can tech `id` be researched from `mask` (it exists, is not held yet, and all
/// its prerequisites are held)? Knowledge is checked elsewhere. A tech that
/// does not exist cannot be researched.
pub fn can_research(mask: u64, id: u16) -> (r: bool)
    ensures
        r == (id < TECH_COUNT && !has_tech(mask, id)
            && forall|i: int| 0 <= i < tech_prereqs(id).len() ==> has_tech(mask, #[trigger] tech_prereqs(id)[i])),
{
    if id >= TECH_COUNT {
        return false;
    }
    proof {
        lemma_tree_is_dag(id);
    }
    if is_researched(mask, id) {
        return false;
    }
    match get(id) {
        Some(t) => {
            let mut k: usize = 0;
            while k < t.prereqs.len()
                invariant
                    t.prereqs@ == tech_prereqs(id),
                    0 <= k <= t.prereqs.len(),
                    forall|i: int| 0 <= i < k ==> has_tech(mask, #[trigger] tech_prereqs(id)[i]),
                    forall|i: int| 0 <= i < tech_prereqs(id).len() ==> tech_prereqs(id)[i] < id,
                    id < TECH_COUNT,
                decreases t.prereqs.len() - k,
            {
                let p = t.prereqs[k];
                if !is_researched(mask, p) {
                    return false;
                }
                k = k + 1;
            }
            true
        },
        None => false,
    }
}

/// The tree is a DAG whose ids are contiguous: every prerequisite of a tech
/// has a strictly smaller id, so no tech can (even indirectly) require itself.
pub proof fn lemma_tree_is_dag(id: u16)
    requires
        id < TECH_COUNT,
    ensures
        forall|i: int| 0 <= i < tech_prereqs(id).len() ==> tech_prereqs(id)[i] < id,
        id < 64,
{
}

/// The cumulated effects of a set of techs (derived, never stored). Bonuses
/// are in percent of the base output: 100 is the base, 190 is +90 %.
#[derive(Debug, Clone, Copy, PartialEq, Eq, Structural)]
pub struct Effects {
    pub capacity_pct: u32,
    pub range_bonus: u32,
    pub influence_pct: u32,
    pub industry_pct: u32,
    pub commerce_pct: u32,
    pub farm_pct: u32,
    pub science_pct: u32,
    pub manpower_pct: u32,
    /// Labour efficiency: percentage of required jobs saved (at most 75).
    pub job_eff_pct: u32,
    pub pollution_pct: u32,
    pub naval: bool,
    pub archer: bool,
    pub cavalry: bool,
    pub unit_hp: i32,
    pub unit_dmg: i32,
}

/// The effects of no tech at all.
pub open spec fn base_effects() -> Effects {
    Effects {
        capacity_pct: 100,
        range_bonus: 0,
        influence_pct: 100,
        industry_pct: 100,
        commerce_pct: 100,
        farm_pct: 100,
        science_pct: 100,
        manpower_pct: 100,
        job_eff_pct: 0,
        pollution_pct: 100,
        naval: false,
        archer: false,
        cavalry: false,
        unit_hp: 0,
        unit_dmg: 0,
    }
}

/// One more elementary effect: bonuses add up, unlocks are ORs.
pub open spec fn add_effect(e: Effects, f: Effect) -> Effects {
    match f {
        Effect::Capacity(x) => Effects { capacity_pct: (e.capacity_pct + x) as u32, ..e },
        Effect::Range(x) => Effects { range_bonus: (e.range_bonus + x) as u32, ..e },
        Effect::Influence(x) => Effects { influence_pct: (e.influence_pct + x) as u32, ..e },
        Effect::Industry(x) => Effects { industry_pct: (e.industry_pct + x) as u32, ..e },
        Effect::Commerce(x) => Effects { commerce_pct: (e.commerce_pct + x) as u32, ..e },
        Effect::Farm(x) => Effects { farm_pct: (e.farm_pct + x) as u32, ..e },
        Effect::Science(x) => Effects { science_pct: (e.science_pct + x) as u32, ..e },
        Effect::Manpower(x) => Effects { manpower_pct: (e.manpower_pct + x) as u32, ..e },
        Effect::JobEff(x) => Effects { job_eff_pct: (e.job_eff_pct + x) as u32, ..e },
        Effect::Pollution(x) => Effects { pollution_pct: (e.pollution_pct + x) as u32, ..e },
        Effect::Naval => Effects { naval: true, ..e },
        Effect::Archer => Effects { archer: true, ..e },
        Effect::Cavalry => Effects { cavalry: true, ..e },
        Effect::UnitHp(x) => Effects { unit_hp: (e.unit_hp + x) as i32, ..e },
        Effect::UnitDmg(x) => Effects { unit_dmg: (e.unit_dmg + x) as i32, ..e },
    }
}

/// The first `k` effects of `fs`, added to `e` in order.
pub open spec fn add_all(e: Effects, fs: Seq<Effect>, k: int) -> Effects
    decreases k,
{
    if k <= 0 { e } else { add_effect(add_all(e, fs, k - 1), fs[k - 1]) }
}

/// The effects of the techs of `mask` among the first `n` ids, folded in id order.
pub open spec fn fold_techs(mask: u64, n: int) -> Effects
    decreases n,
{
    if n <= 0 {
        base_effects()
    } else {
        let e = fold_techs(mask, n - 1);
        let id = (n - 1) as u16;
        if has_tech(mask, id) { add_all(e, tech_effects(id), tech_effects(id).len() as int) } else { e }
    }
}

/// The effects of the techs of `mask`, labour efficiency capped at 75 %.
pub open spec fn effects_spec(mask: u64) -> Effects {
    let e = fold_techs(mask, TECH_COUNT as int);
    Effects { job_eff_pct: if e.job_eff_pct > 75 { 75 } else { e.job_eff_pct }, ..e }
}

/// Every field of `e` stays under `m` above its base.
pub open spec fn bounded(e: Effects, m: int) -> bool {
    &&& e.capacity_pct <= 100 + m && e.range_bonus <= m && e.influence_pct <= 100 + m
    &&& e.industry_pct <= 100 + m && e.commerce_pct <= 100 + m && e.farm_pct <= 100 + m
    &&& e.science_pct <= 100 + m && e.manpower_pct <= 100 + m && e.job_eff_pct <= m
    &&& e.pollution_pct <= 100 + m && 0 <= e.unit_hp <= m && 0 <= e.unit_dmg <= m
}

/// An elementary effect moves a field by at most 100.
pub open spec fn small(f: Effect) -> bool {
    match f {
        Effect::Capacity(x) => x <= 100,
        Effect::Range(x) => x <= 100,
        Effect::Influence(x) => x <= 100,
        Effect::Industry(x) => x <= 100,
        Effect::Commerce(x) => x <= 100,
        Effect::Farm(x) => x <= 100,
        Effect::Science(x) => x <= 100,
        Effect::Manpower(x) => x <= 100,
        Effect::JobEff(x) => x <= 100,
        Effect::Pollution(x) => x <= 100,
        Effect::UnitHp(x) => 0 <= x <= 100,
        Effect::UnitDmg(x) => 0 <= x <= 100,
        _ => true,
    }
}

/// Each tech has at most three effects, each of them small.
proof fn lemma_tech_effects_small(id: u16)
    ensures
        tech_effects(id).len() <= 3,
        forall|k: int| 0 <= k < tech_effects(id).len() ==> small(#[trigger] tech_effects(id)[k]),
{
}

/// Adds one elementary effect.
fn add_one(e: Effects, f: Effect, m: Ghost<int>) -> (r: Effects)
    requires
        bounded(e, m@),
        small(f),
        0 <= m@ <= 10000,
    ensures
        r == add_effect(e, f),
        bounded(r, m@ + 100),
{
    match f {
        Effect::Capacity(x) => Effects { capacity_pct: e.capacity_pct + x, ..e },
        Effect::Range(x) => Effects { range_bonus: e.range_bonus + x, ..e },
        Effect::Influence(x) => Effects { influence_pct: e.influence_pct + x, ..e },
        Effect::Industry(x) => Effects { industry_pct: e.industry_pct + x, ..e },
        Effect::Commerce(x) => Effects { commerce_pct: e.commerce_pct + x, ..e },
        Effect::Farm(x) => Effects { farm_pct: e.farm_pct + x, ..e },
        Effect::Science(x) => Effects { science_pct: e.science_pct + x, ..e },
        Effect::Manpower(x) => Effects { manpower_pct: e.manpower_pct + x, ..e },
        Effect::JobEff(x) => Effects { job_eff_pct: e.job_eff_pct + x, ..e },
        Effect::Pollution(x) => Effects { pollution_pct: e.pollution_pct + x, ..e },
        Effect::Naval => Effects { naval: true, ..e },
        Effect::Archer => Effects { archer: true, ..e },
        Effect::Cavalry => Effects { cavalry: true, ..e },
        Effect::UnitHp(x) => Effects { unit_hp: e.unit_hp + x, ..e },
        Effect::UnitDmg(x) => Effects { unit_dmg: e.unit_dmg + x, ..e },
    }
}

/// The cumulated effects of the techs of `mask`: the table folded in id order,
/// bonuses summed, unlocks or-ed, labour efficiency capped at 75 % (it cannot
/// cancel every job).
pub fn effects(mask: u64) -> (e: Effects)
    ensures
        e == effects_spec(mask),
{
    let mut e = Effects {
        capacity_pct: 100,
        range_bonus: 0,
        influence_pct: 100,
        industry_pct: 100,
        commerce_pct: 100,
        farm_pct: 100,
        science_pct: 100,
        manpower_pct: 100,
        job_eff_pct: 0,
        pollution_pct: 100,
        naval: false,
        archer: false,
        cavalry: false,
        unit_hp: 0,
        unit_dmg: 0,
    };
    let mut id: u16 = 0;
    while id < TECH_COUNT
        invariant
            0 <= id <= TECH_COUNT,
            e == fold_techs(mask, id as int),
            bounded(e, 300 * id),
        decreases TECH_COUNT - id,
    {
        if is_researched(mask, id) {
            let t = get(id);
            if let Some(t) = t {
                proof {
                    lemma_tech_effects_small(id);
                }
                let ghost e0 = e;
                let mut k: usize = 0;
                while k < t.effects.len()
                    invariant
                        0 <= id < TECH_COUNT,
                        t.effects@ == tech_effects(id),
                        t.effects@.len() <= 3,
                        forall|j: int| 0 <= j < t.effects@.len() ==> small(#[trigger] t.effects@[j]),
                        0 <= k <= t.effects@.len(),
                        e == add_all(e0, t.effects@, k as int),
                        bounded(e, 300 * id + 100 * k),
                    decreases t.effects.len() - k,
                {
                    e = add_one(e, t.effects[k], Ghost(300 * id + 100 * k));
                    k = k + 1;
                }
            }
        }
        id = id + 1;
    }
    if e.job_eff_pct > 75 {
        e.job_eff_pct = 75;
    }
    e
}

} // verus!
