//! The turn of an AI nation: research, building, expansion, diplomacy and war.
//!
//! The plan only reads the realm and returns commands; the simulation stays
//! free of AI and every turn can be replayed. What the plan reads of the
//! continuous side of the world (tile ranks, populous tiles, the grievance
//! past the war threshold, whether knowledge pays the next tier) comes in an
//! [`Outlook`].

use vstd::prelude::*;

use crate::ai::{anchor_spec, at_war_with_anyone, at_war_with_anyone_spec, economy, economy_spec, expansion,
    expansion_upto, has_barracks, has_barracks_spec, nearest_rival, nearest_rival_spec, rival_distance_upto};
use crate::military::{military, military_ok};
use crate::nation::{ESSOR, FER, LIEN, TERROIR};
use crate::path::Ground;
use crate::proto::Command;
use crate::realm::{has_nation, nation_pos, Realm};

verus! {

/// What the plan reads of the continuous side of the world.
pub struct Outlook {
    /// Rank of each tile by carrying capacity (the building sites).
    pub rank: Vec<u64>,
    /// The tiles of the nation holding a thousand people or more.
    pub populous: Vec<bool>,
    /// The nation this one holds its top grievance against, when that
    /// grievance has reached the war threshold.
    pub grievance: Option<u16>,
    /// Whether the nation's knowledge pays the tier picked by [`research_pick`].
    pub can_research: bool,
}

/// The research branches an AI nation pushes: always the economy and
/// expansion branches, and iron once it owns barracks.
pub open spec fn pushed(r: Realm, nation: u16, b: int) -> bool {
    b == TERROIR || b == ESSOR || b == LIEN || (b == FER && has_barracks_spec(r.plots@, nation))
}

/// Branch `a` at tier `ta` comes before branch `b` at tier `tb`: lower tier
/// first, then lower branch.
pub open spec fn before(ta: u8, a: int, tb: u8, b: int) -> bool {
    ta < tb || (ta == tb && a <= b)
}

/// The branch an AI nation pushes next and its current tier: the pushed
/// branch at the lowest tier (the lowest branch among equals).
pub open spec fn is_pick(r: Realm, nation: u16, pick: (u8, u8)) -> bool {
    let tech = r.nations@[nation_pos(r.nations@, nation)].tech;
    &&& pushed(r, nation, pick.0 as int)
    &&& pick.1 == tech[pick.0 as int]
    &&& forall|b: int| 0 <= b < 4 && #[trigger] pushed(r, nation, b) ==> before(pick.1, pick.0 as int, tech[b], b)
}

/// The branch to push and its tier (`None` for a nation that does not exist).
pub fn research_pick(realm: &Realm, nation: u16) -> (pick: Option<(u8, u8)>)
    requires
        realm.wf(),
    ensures
        pick is None <==> !has_nation(realm.nations@, nation),
        pick matches Some(p) ==> is_pick(*realm, nation, p),
{
    let k = match realm.nation_index(nation) {
        Some(k) => k,
        None => {
            return None;
        },
    };
    let tech = realm.nations[k].tech;
    let barracks = has_barracks(realm, nation);
    let mut best_b: usize = TERROIR;
    let mut best_t: u8 = tech[TERROIR];
    let mut b: usize = 0;
    while b < 4
        invariant
            0 <= b <= 4,
            k < realm.nations@.len(),
            tech == realm.nations@[k as int].tech,
            k == nation_pos(realm.nations@, nation),
            barracks == has_barracks_spec(realm.plots@, nation),
            pushed(*realm, nation, best_b as int),
            best_t == tech[best_b as int],
            forall|c: int| 0 <= c < b && #[trigger] pushed(*realm, nation, c) ==> before(best_t, best_b as int, tech[c], c),
            best_b == TERROIR || best_b < b,
        decreases 4 - b,
    {
        let pushes = b == TERROIR || b == ESSOR || b == LIEN || (b == FER && barracks);
        if pushes && (tech[b] < best_t || (tech[b] == best_t && b < best_b)) {
            best_b = b;
            best_t = tech[b];
        }
        b = b + 1;
    }
    Some((best_b as u8, best_t))
}

/// The research order of the turn.
pub open spec fn research_cmds(r: Realm, nation: u16, pick: Option<(u8, u8)>, can_research: bool) -> Seq<Command> {
    match pick {
        Some(p) => if can_research { seq![Command::Research { nation, branch: p.0 }] } else { Seq::empty() },
        None => Seq::empty(),
    }
}

/// The building order of the turn.
pub open spec fn economy_cmds(r: Realm, nation: u16, rank: Seq<u64>) -> Seq<Command> {
    economy_spec(r, nation, rank,
        at_war_with_anyone_spec(r, nation) || (match anchor_spec(r, nation) {
            Some(me) => rival_distance_upto(r, nation, me, r.nations@.len() as int),
            None => None,
        }) is Some)
}

/// The expansion orders of the turn.
pub open spec fn expansion_cmds(r: Realm, nation: u16, populous: Seq<bool>) -> Seq<Command> {
    let budget = if has_nation(r.nations@, nation) {
        (r.nations@[nation_pos(r.nations@, nation)].influence as int) / (crate::works::SWARM_INFLUENCE as int)
    } else {
        0
    };
    let rival = match nearest_rival_spec(r, nation) {
        Some(o) => anchor_spec(r, o),
        None => None,
    };
    if budget <= 0 { Seq::empty() } else { expansion_upto(r, nation, populous, rival, budget, r.plots@.len() as int).2 }
}

/// The declaration of war of the turn: on the nation of the grievance past the
/// threshold when not already at war with it; otherwise, for a nation with
/// barracks and at peace with everyone, on the nearest rival.
pub open spec fn war_cmds(r: Realm, nation: u16, grievance: Option<u16>) -> Seq<Command> {
    if grievance matches Some(t) && !r.diplomacy.at_war_spec(nation, t) {
        seq![Command::DeclareWar { nation, target: grievance->0 }]
    } else if has_barracks_spec(r.plots@, nation) && !at_war_with_anyone_spec(r, nation) {
        match nearest_rival_spec(r, nation) {
            Some(t) => seq![Command::DeclareWar { nation, target: t }],
            None => Seq::empty(),
        }
    } else {
        Seq::empty()
    }
}

/// The commands of one turn of an AI nation, in order: research, building,
/// expansion, diplomacy, then the orders of its armed forces (see
/// [`military_ok`]).
pub fn plan(realm: &Realm, nation: u16, outlook: &Outlook, ground: &Vec<Ground>) -> (cmds: Vec<Command>)
    requires
        realm.wf(),
        outlook.rank@.len() == realm.plots@.len(),
        outlook.populous@.len() == realm.plots@.len(),
        ground@.len() == realm.plots@.len(),
        forall|i: int| 0 <= i < ground@.len() ==> (#[trigger] ground@[i]).wf(),
    ensures
        ({
            let head = research_cmds(*realm, nation, research_pick_of(*realm, nation), outlook.can_research)
                + economy_cmds(*realm, nation, outlook.rank@) + expansion_cmds(*realm, nation, outlook.populous@)
                + war_cmds(*realm, nation, outlook.grievance);
            &&& head.len() <= cmds@.len()
            &&& cmds@.subrange(0, head.len() as int) == head
            &&& military_ok(*realm, nation, ground@, cmds@.subrange(head.len() as int, cmds@.len() as int))
        }),
{
    let mut cmds: Vec<Command> = Vec::new();
    let pick = research_pick(realm, nation);
    proof {
        lemma_pick_unique(*realm, nation, pick);
    }
    if let Some((branch, _)) = pick {
        if outlook.can_research {
            cmds.push(Command::Research { nation, branch });
        }
    }
    let ghost c0 = cmds@;
    let mut eco = economy(realm, nation, &outlook.rank);
    cmds.append(&mut eco);
    let mut exp = expansion(realm, nation, &outlook.populous);
    cmds.append(&mut exp);
    let mut declared = false;
    if let Some(target) = outlook.grievance {
        if !realm.diplomacy.at_war(nation, target) {
            cmds.push(Command::DeclareWar { nation, target });
            declared = true;
        }
    }
    if !declared && has_barracks(realm, nation) && !at_war_with_anyone(realm, nation) {
        if let Some(target) = nearest_rival(realm, nation) {
            cmds.push(Command::DeclareWar { nation, target });
        }
    }
    let ghost head = cmds@;
    let mut war = military(realm, nation, ground);
    let ghost w0 = war@;
    cmds.append(&mut war);
    proof {
        assert(cmds@.subrange(0, head.len() as int) =~= head);
        assert(cmds@.subrange(head.len() as int, cmds@.len() as int) =~= w0);
    }
    cmds
}

/// The pick of [`research_pick`], as a value.
pub open spec fn research_pick_of(r: Realm, nation: u16) -> Option<(u8, u8)> {
    if has_nation(r.nations@, nation) {
        Some(choose|p: (u8, u8)| is_pick(r, nation, p))
    } else {
        None
    }
}

/// There is one pick only.
proof fn lemma_pick_unique(r: Realm, nation: u16, pick: Option<(u8, u8)>)
    requires
        pick is None <==> !has_nation(r.nations@, nation),
        pick matches Some(p) ==> is_pick(r, nation, p),
    ensures
        pick == research_pick_of(r, nation),
{
    if let Some(p) = pick {
        let q = choose|q: (u8, u8)| is_pick(r, nation, q);
        assert(is_pick(r, nation, q));
        let tech = r.nations@[nation_pos(r.nations@, nation)].tech;
        assert(pushed(r, nation, q.0 as int));
        assert(pushed(r, nation, p.0 as int));
        assert(before(p.1, p.0 as int, tech[q.0 as int], q.0 as int));
        assert(before(q.1, q.0 as int, tech[p.0 as int], p.0 as int));
        assert(p == q);
    }
}

} // verus!
