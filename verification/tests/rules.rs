use enyo::nation::{Nation, EDUCATION_UPKEEP, MILITARY_UPKEEP};
use enyo::path::{range_budget, reach_cost, tile_cost, IMPASSABLE};
use enyo::proto::Building;
use enyo::rng::Rng;
use enyo::tech::{can_research, effects, get, is_researched, TECH_COUNT};
use enyo::tile::TileKind;
use enyo::works::build_cost;

#[test]
fn build_costs_frozen() {
    assert_eq!(build_cost(Building::City), (100, 0, 50));
    assert_eq!(build_cost(Building::Industry), (100, 0, 0));
    assert_eq!(build_cost(Building::Commerce), (120, 20, 0));
    assert_eq!(build_cost(Building::Infrastructure), (40, 20, 0));
    assert_eq!(build_cost(Building::Education), (150, 30, 0));
    assert_eq!(build_cost(Building::Military), (120, 40, 0));
    assert_eq!(build_cost(Building::Farm), (80, 15, 0));
    assert_eq!(build_cost(Building::Port), (100, 30, 0));
}

#[test]
fn range_grows_with_essor() {
    assert!(range_budget(2) > range_budget(0));
}

#[test]
fn range_budget_formula() {
    assert_eq!(range_budget(0), 60);
    assert_eq!(range_budget(1), 100);
    assert_eq!(range_budget(3), 180);
}

#[test]
fn ocean_blocks_without_naval_tech() {
    // Land / ocean / land / ocean on a cylinder of width 4: both ways from
    // tile 0 to tile 2 cross an ocean.
    let kinds = [TileKind::Land, TileKind::Ocean, TileKind::Land, TileKind::Ocean];
    let costs0: Vec<u32> = kinds.iter().map(|&k| tile_cost(k, 0, 0)).collect();
    assert_eq!(reach_cost(&costs0, 4, 1, 0, 2, 1000), None);
    let costs2: Vec<u32> = kinds.iter().map(|&k| tile_cost(k, 0, 2)).collect();
    assert!(reach_cost(&costs2, 4, 1, 0, 2, 1000).is_some());
}

#[test]
fn tile_cost_values() {
    assert_eq!(tile_cost(TileKind::Land, 0, 0), 10);
    assert_eq!(tile_cost(TileKind::Land, 40, 0), 50);
    assert_eq!(tile_cost(TileKind::Ocean, 0, 0), IMPASSABLE);
    assert_eq!(tile_cost(TileKind::Ocean, 0, 1), 70);
    assert_eq!(tile_cost(TileKind::Ocean, 0, 2), 50);
    assert_eq!(tile_cost(TileKind::Ocean, 0, 3), 30);
}

#[test]
fn reach_cost_is_the_cheapest_path() {
    // A row of 5 land tiles (cost 10 each), X wraps: from 0 to 2 costs 20
    // (two entries), from 0 to 4 costs 10 (one step to the left).
    let costs = vec![10u32; 5];
    assert_eq!(reach_cost(&costs, 5, 1, 0, 2, 1000), Some(20));
    assert_eq!(reach_cost(&costs, 5, 1, 0, 4, 1000), Some(10));
    assert_eq!(reach_cost(&costs, 5, 1, 0, 0, 1000), Some(0));
    // Over budget: unreachable.
    assert_eq!(reach_cost(&costs, 5, 1, 0, 2, 19), None);
}

#[test]
fn same_seed_same_sequence() {
    let mut a = Rng::new(42);
    let mut b = Rng::new(42);
    for _ in 0..1000 {
        assert_eq!(a.next_u64(), b.next_u64());
    }
}

#[test]
fn different_seed_diverges() {
    let mut a = Rng::new(1);
    let mut b = Rng::new(2);
    assert_ne!(a.next_u64(), b.next_u64());
}

#[test]
fn rng_first_draw_is_splitmix() {
    // SplitMix64 from seed 0: the first output of the reference generator.
    let mut r = Rng::new(0);
    assert_eq!(r.next_u64(), 0xE220_A839_7B1D_CDAF);
}

#[test]
fn tree_is_a_valid_dag() {
    // Contiguous, unique ids; prerequisites point to earlier ids (acyclic by
    // construction) and fit in the u64 mask.
    for i in 0..TECH_COUNT {
        let t = get(i).expect("contiguous ids");
        assert_eq!(t.id, i, "contiguous ids 0..");
        assert!(t.id < 64, "fits in the u64 mask");
        for &p in t.prereqs.iter() {
            assert!(p < t.id, "prerequisite {} before {} (DAG)", p, t.id);
        }
    }
    assert!(get(TECH_COUNT).is_none());
}

#[test]
fn effects_accumulate() {
    // Masonry (+40 %) then aqueducts (+50 %): capacity at 190 %.
    let mask = (1u64 << 1) | (1u64 << 6);
    let e = effects(mask);
    assert_eq!(e.capacity_pct, 190);
    // Sailing unlocks the naval; the forge, cavalry.
    assert!(effects(1 << 9).naval);
    assert!(effects(1 << 8).cavalry);
    assert!(!effects(0).naval);
}

#[test]
fn effects_cap_labour_efficiency() {
    // Bureaucracy (20) + guilds (20): 40 %, under the cap; with every tech the
    // sum stays 40, the cap (75) is never passed.
    let e = effects((1u64 << 10) | (1u64 << 12));
    assert_eq!(e.job_eff_pct, 40);
    let all = effects((1u64 << 22) - 1);
    assert!(all.job_eff_pct <= 75);
    assert_eq!(all.unit_hp, 10 + 10 + 30 + 20);
    assert_eq!(all.unit_dmg, 10 + 20);
    assert_eq!(all.range_bonus, 40 + 60 + 80);
    let none = effects(0);
    assert_eq!(none.capacity_pct, 100);
    assert_eq!(none.job_eff_pct, 0);
}

#[test]
fn prereqs_gate_research() {
    // Aqueducts (prerequisite: masonry) locked without masonry.
    assert!(!can_research(0, 6));
    assert!(can_research(1 << 1, 6));
    // Already held: not researchable.
    assert!(!can_research(1 << 1, 1));
    // A root without prerequisites: researchable from the start.
    assert!(can_research(0, 0));
}

#[test]
fn researched_reads_the_mask() {
    assert!(is_researched(1 << 5, 5));
    assert!(!is_researched(1 << 5, 4));
    // Guilds need both currency and bureaucracy.
    assert!(!can_research(1 << 7, 12));
    assert!(can_research((1 << 7) | (1 << 10), 12));
    // An unknown id can never be researched.
    assert!(!can_research(0, 40));
    assert!(!can_research(u64::MAX, 64));
    assert!(!can_research(0, u16::MAX));
}

#[test]
fn soundness_check_matches_the_invariant() {
    let mut r = enyo::realm::Realm::new(6, 4, &vec![enyo::tile::TileKind::Land; 24]);
    assert!(r.is_sound());
    r.units.push(enyo::unit::Unit { id: 1, owner: 0, kind: enyo::proto::UnitKind::Infantry, x: 1, y: 1, hp: 100, moves_left: 30 });
    // Its id was never handed out.
    assert!(!r.is_sound());
    r.next_unit_id = 2;
    assert!(r.is_sound());
    // Two units on one tile.
    r.units.push(enyo::unit::Unit { id: 2, owner: 0, kind: enyo::proto::UnitKind::Infantry, x: 1, y: 1, hp: 100, moves_left: 30 });
    r.next_unit_id = 3;
    assert!(!r.is_sound());
}

#[test]
fn monthly_ledger_never_overdraws() {
    let mut n = Nation::new(0);
    n.money = 5;
    assert!(n.pay_upkeep(MILITARY_UPKEEP));
    assert_eq!(n.money, 1);
    assert!(!n.pay_upkeep(EDUCATION_UPKEEP), "an unpaid school idles");
    assert_eq!(n.money, 1);
    n.materials = 7;
    assert_eq!(n.trade(10), 7);
    assert_eq!(n.materials, 0);
    assert_eq!(n.trade(10), 0);
    n.materials = -3;
    assert_eq!(n.trade(4), 0);
    assert_eq!(n.materials, -3);
    n.food = 10;
    assert!(!n.eat(4));
    assert_eq!(n.food, 6);
    assert!(n.eat(9), "a shortfall empties the granary");
    assert_eq!(n.food, 0);
    let before = n.influence;
    n.accrue_influence(4, 2);
    assert_eq!(n.influence, before + 3 + 4 * 2 + 2);
}
