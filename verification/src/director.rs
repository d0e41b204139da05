//! The real-time Director: a durable intention (stance, intensity, duration,
//! focus), set by a language model or by the deterministic baseline, resolved
//! every tick against the current state into concrete levers (grievances,
//! calamities, windfalls).
//!
//! It stays out of sight: its cadence is aperiodic, its amounts vary, its
//! targets are drawn among the top candidates and the last one is not hit
//! twice in a row. All its chance comes from a pure jitter of the turn number
//! (it never draws from the world's generator). An equity budget caps how hard
//! it can press on the player.
//!
//! The measures of the state it reads (dominance, struggle, the most populous
//! tiles) are continuous: the application takes them and hands over the
//! verdicts in a [`Drama`].

use vstd::prelude::*;

use crate::proto::Command;
use crate::rng::{draw, splitmix, GAMMA};

verus! {

/// The narrative posture of the Director.
#[derive(Debug, Clone, Copy, PartialEq, Eq, Structural)]
pub enum Stance {
    Neutral,
    /// The player dominates: hem them in (rivals' grievances, "natural" calamities).
    Pressure,
    /// The player suffers unfairly: a discreet respite.
    Relief,
    /// Raise a rival to create drama.
    ElevateRival,
}

/// The durable intention of the Director.
#[derive(Debug, Clone)]
pub struct Intent {
    pub stance: Stance,
    /// 0..=100: scales the levers' amounts.
    pub intensity: u32,
    /// Relative duration (months), anchored when the intention is applied.
    pub duration: u64,
    /// Month after which the intention expires.
    pub until_turn: u64,
    /// Targeted nation (a rival) for `Pressure` and `ElevateRival`.
    pub focus: Option<u16>,
    /// Displayable organic cause (the player's view), for the audit.
    pub public_cause: String,
    /// True reason (never shown), for the audit.
    pub hidden_intent: String,
}

/// Bounds of the aperiodic cadence (months between two interventions).
pub const ACT_PERIOD_MIN: u64 = 2;
pub const ACT_PERIOD_MAX: u64 = 5;
/// Equity budget: caps the cumulated pressure.
pub const EQUITY_MAX: i32 = 120;

impl Intent {
    /// The neutral intention: no lever, six months.
    pub fn neutral() -> (r: Self)
        ensures
            r.stance == Stance::Neutral,
            r.intensity == 0,
            r.duration == 6,
            r.until_turn == 0,
            r.focus is None,
            r.public_cause@ == Seq::<char>::empty(),
            r.hidden_intent@ == Seq::<char>::empty(),
    {
        Self {
            stance: Stance::Neutral,
            intensity: 0,
            duration: 6,
            until_turn: 0,
            focus: None,
            public_cause: String::new(),
            hidden_intent: String::new(),
        }
    }

    /// Anchors the end of the intention on the current month `now`: it lasts
    /// its duration from there.
    pub fn anchor(&mut self, now: u64)
        requires
            now as int + old(self).duration as int <= u64::MAX,
        ensures
            final(self).until_turn == now + old(self).duration,
            final(self).stance == old(self).stance,
            final(self).intensity == old(self).intensity,
            final(self).duration == old(self).duration,
            final(self).focus == old(self).focus,
            final(self).public_cause == old(self).public_cause,
            final(self).hidden_intent == old(self).hidden_intent,
    {
        self.until_turn = now + self.duration;
    }

    /// The deterministic intention drawn from the state at month `turn` (the
    /// game holds without a language model): press a dominant player for a
    /// year, with an intensity that grows with the domination (20 to 100);
    /// else give a struggling player a year of respite; else stay neutral for
    /// six months. Neutral for good with fewer than two nations.
    pub fn baseline(d: &Drama, turn: u64) -> (r: Self)
        requires
            turn <= u64::MAX - 12,
        ensures
            baseline_of(r, *d, turn),
    {
        if d.nations < 2 {
            return Self::neutral();
        }
        if d.dominant {
            let intensity: u32 = if d.dominance_x200 < 20 { 20 } else if d.dominance_x200 > 100 { 100 } else {
                d.dominance_x200 as u32 };
            Self {
                stance: Stance::Pressure,
                intensity,
                duration: 12,
                until_turn: turn + 12,
                focus: d.strongest_rival,
                public_cause: "tensions régionales et intempéries".to_owned(),
                hidden_intent: "freiner le joueur dominant".to_owned(),
            }
        } else if d.struggling {
            Self {
                stance: Stance::Relief,
                intensity: 60,
                duration: 12,
                until_turn: turn + 12,
                focus: None,
                public_cause: "saison clémente".to_owned(),
                hidden_intent: "répit pour un joueur en difficulté méritée".to_owned(),
            }
        } else {
            let mut n = Self::neutral();
            n.until_turn = turn + 6;
            n
        }
    }
}

/// `i` is the deterministic intention for the state `d` at month `turn`.
pub open spec fn baseline_of(i: Intent, d: Drama, turn: u64) -> bool {
    if d.nations < 2 {
        &&& i.stance == Stance::Neutral && i.intensity == 0 && i.duration == 6 && i.until_turn == 0
        &&& i.focus is None && i.public_cause@ == Seq::<char>::empty() && i.hidden_intent@ == Seq::<char>::empty()
    } else if d.dominant {
        &&& i.stance == Stance::Pressure
        &&& i.intensity == (if d.dominance_x200 < 20 { 20 } else if d.dominance_x200 > 100 { 100 } else { d.dominance_x200 })
        &&& i.duration == 12 && i.until_turn == turn + 12 && i.focus == d.strongest_rival
        &&& i.public_cause@ == "tensions régionales et intempéries"@
        &&& i.hidden_intent@ == "freiner le joueur dominant"@
    } else if d.struggling {
        &&& i.stance == Stance::Relief && i.intensity == 60 && i.duration == 12 && i.until_turn == turn + 12
        &&& i.focus is None
        &&& i.public_cause@ == "saison clémente"@
        &&& i.hidden_intent@ == "répit pour un joueur en difficulté méritée"@
    } else {
        &&& i.stance == Stance::Neutral && i.intensity == 0 && i.duration == 6 && i.until_turn == turn + 6
        &&& i.focus is None && i.public_cause@ == Seq::<char>::empty() && i.hidden_intent@ == Seq::<char>::empty()
    }
}

/// The Director's live state (never saved, never replayed).
pub struct Director {
    intent: Intent,
    next_act: u64,
    last_target: Option<(u32, u32)>,
    pressure_budget: i32,
}

/// The verdicts on the current state that the Director reads, measured by the
/// application on the continuous layers.
#[derive(Debug, Clone)]
pub struct Drama {
    /// Number of nations.
    pub nations: u32,
    /// The player's dominance exceeds the pressure threshold.
    pub dominant: bool,
    /// The player's dominance exceeds the calamity threshold.
    pub crushing: bool,
    /// The player struggles (deserving a respite).
    pub struggling: bool,
    /// The strongest rival, if any.
    pub strongest_rival: Option<u16>,
    /// Ids of the existing nations.
    pub existing: Vec<u16>,
    /// The player's dominance (population share minus the best rival's
    /// share) times 200, truncated: the intensity of a pressure.
    pub dominance_x200: i64,
    /// The player's most populous tiles, most populous first (at most eight).
    pub player_top: Vec<(u32, u32)>,
    /// For candidate rivals, their most populous tiles (at most six).
    pub rival_tops: Vec<(u16, Vec<(u32, u32)>)>,
    /// The player's most populous tile (the first one among equals).
    pub player_best_tile: Option<(u32, u32)>,
    /// The player's most devastated tile (the first one among equals).
    pub player_worst_tile: Option<(u32, u32)>,
}

/// Jitter of a seed (SplitMix64, pure).
pub open spec fn jitter_spec(seed: u64) -> u64 {
    draw(seed)
}

/// Jitter of a seed (SplitMix64, pure): it never draws from the world's
/// generator.
pub fn jitter(seed: u64) -> (r: u64)
    ensures
        r == jitter_spec(seed),
{
    splitmix(seed.wrapping_add(GAMMA))
}

/// Months before the next intervention: 2 to 5, drawn from the turn.
pub open spec fn act_gap_spec(turn: u64) -> u64 {
    (ACT_PERIOD_MIN + jitter_spec(turn ^ 0x9151) % 4) as u64
}

/// Months before the next intervention (aperiodic cadence).
pub fn act_gap(turn: u64) -> (g: u64)
    ensures
        g == act_gap_spec(turn),
        ACT_PERIOD_MIN <= g <= ACT_PERIOD_MAX,
{
    ACT_PERIOD_MIN + jitter(turn ^ 0x9151) % (ACT_PERIOD_MAX - ACT_PERIOD_MIN + 1u64)
}

/// An amount varied by ±20 % around `base` (at least 1), bounded to `[lo, hi]`.
pub open spec fn vary_spec(base: u32, seed: u64, lo: u32, hi: u32) -> u32 {
    let factor = 80 + jitter_spec(seed) % 41;
    let b = if base >= 1 { base as int } else { 1 };
    let v = b * factor / 100;
    (if v < lo { lo as int } else if v > hi { hi as int } else { v }) as u32
}

/// An amount varied by ±20 % around `base`, bounded to `[lo, hi]`.
pub fn vary(base: u32, seed: u64, lo: u32, hi: u32) -> (v: u32)
    requires
        lo <= hi,
    ensures
        v == vary_spec(base, seed, lo, hi),
        lo <= v <= hi,
{
    let factor = 80 + jitter(seed) % 41;
    let b: u64 = if base >= 1 { base as u64 } else { 1 };
    assert(b * factor <= 0xffff_ffff * 120) by (nonlinear_arith)
        requires b <= 0xffff_ffff, factor <= 120;
    let v = b * factor / 100;
    if v < lo as u64 {
        lo
    } else if v > hi as u64 {
        hi
    } else {
        v as u32
    }
}

/// The candidate drawn among `cands` (the last target is skipped when another
/// one exists).
pub open spec fn pick_spec(cands: Seq<(u32, u32)>, seed: u64, last: Option<(u32, u32)>) -> Option<(u32, u32)> {
    if cands.len() == 0 {
        None
    } else {
        let i = jitter_spec(seed) % (cands.len() as u64);
        let j = if cands.len() > 1 && Some(cands[i as int]) == last { (i + 1) % (cands.len() as int) } else { i as int };
        Some(cands[j])
    }
}

/// The Director never hits the same tile twice in a row: among two distinct
/// candidates or more, the one drawn is never the last target.
pub proof fn lemma_pick_avoids_last(cands: Seq<(u32, u32)>, seed: u64, last: (u32, u32))
    requires
        1 < cands.len() <= u64::MAX,
        forall|a: int, b: int| 0 <= a < b < cands.len() ==> cands[a] != cands[b],
    ensures
        pick_spec(cands, seed, Some(last)) is Some,
        pick_spec(cands, seed, Some(last)) != Some(last),
{
    let n = cands.len() as u64;
    assert(n as int == cands.len());
    let i = jitter_spec(seed) % n;
    assert(0 <= i < cands.len());
    if cands[i as int] == last {
        let j = (i + 1) % (cands.len() as int);
        if i + 1 < cands.len() {
            vstd::arithmetic::div_mod::lemma_small_mod((i + 1) as nat, cands.len());
        } else {
            vstd::arithmetic::div_mod::lemma_mod_self_0(cands.len() as int);
        }
        assert(0 <= j < cands.len() && j != i);
        if j != i {
            if j < i {
                assert(cands[j] != cands[i as int]);
            } else {
                assert(cands[i as int] != cands[j]);
            }
        }
    }
}

/// Draws a target among the candidates, avoiding the last one hit.
pub fn pick(cands: &Vec<(u32, u32)>, seed: u64, last: Option<(u32, u32)>) -> (r: Option<(u32, u32)>)
    ensures
        r == pick_spec(cands@, seed, last),
        r matches Some(c) ==> cands@.contains(c),
{
    if cands.len() == 0 {
        return None;
    }
    let n = cands.len() as u64;
    let mut i = (jitter(seed) % n) as usize;
    let hit = match last {
        Some(l) => cands[i].0 == l.0 && cands[i].1 == l.1,
        None => false,
    };
    if cands.len() > 1 && hit {
        i = (i + 1) % cands.len();
    }
    Some(cands[i])
}

/// The focus, kept only if it names an existing nation other than the player.
pub open spec fn valid_focus_spec(existing: Seq<u16>, focus: Option<u16>, player: u16) -> Option<u16> {
    match focus {
        Some(r) => if r != player && existing.contains(r) { Some(r) } else { None },
        None => None,
    }
}

/// The focus, kept only if it names an existing nation other than the player
/// (no ghostly, reflexive or inverted grievance).
pub fn valid_focus(existing: &Vec<u16>, focus: Option<u16>, player: u16) -> (r: Option<u16>)
    ensures
        r == valid_focus_spec(existing@, focus, player),
{
    match focus {
        Some(r) => {
            if r == player {
                return None;
            }
            let mut i: usize = 0;
            while i < existing.len()
                invariant
                    0 <= i <= existing@.len(),
                    r != player,
                    focus == Some(r),
                    forall|j: int| 0 <= j < i ==> existing@[j] != r,
                decreases existing.len() - i,
            {
                if existing[i] == r {
                    proof {
                        assert(existing@.contains(r));
                    }
                    return Some(r);
                }
                i = i + 1;
            }
            None
        },
        None => None,
    }
}

/// `i` is the first entry of `tops` for rival `r`.
pub open spec fn first_entry(tops: Seq<(u16, Vec<(u32, u32)>)>, r: u16, i: int) -> bool {
    &&& 0 <= i < tops.len()
    &&& tops[i].0 == r
    &&& forall|j: int| 0 <= j < i ==> (#[trigger] tops[j]).0 != r
}

/// The listed top tiles of rival `r`: its first entry, none when it has none.
pub open spec fn tops_of(tops: Seq<(u16, Vec<(u32, u32)>)>, r: u16) -> Seq<(u32, u32)> {
    if exists|i: int| first_entry(tops, r, i) {
        tops[choose|i: int| first_entry(tops, r, i)].1@
    } else {
        Seq::empty()
    }
}

/// Position of the first entry of `tops` for rival `r`.
fn find_rival(tops: &Vec<(u16, Vec<(u32, u32)>)>, r: u16) -> (k: Option<usize>)
    ensures
        k matches Some(i) ==> first_entry(tops@, r, i as int) && tops_of(tops@, r) == tops@[i as int].1@,
        k is None ==> tops_of(tops@, r) == Seq::<(u32, u32)>::empty(),
{
    let mut i: usize = 0;
    while i < tops.len()
        invariant
            0 <= i <= tops@.len(),
            forall|j: int| 0 <= j < i ==> (#[trigger] tops@[j]).0 != r,
        decreases tops.len() - i,
    {
        if tops[i].0 == r {
            proof {
                assert(first_entry(tops@, r, i as int));
                let c = choose|c: int| first_entry(tops@, r, c);
                if c < i {
                    assert(tops@[c].0 != r);
                } else if c > i {
                    assert(tops@[i as int].0 != r);
                }
            }
            return Some(i);
        }
        i = i + 1;
    }
    None
}

/// The stance actually played: a stance no longer justified is dropped.
pub open spec fn played_stance(s: Stance, dominant: bool, struggling: bool) -> Stance {
    match s {
        Stance::Pressure => if dominant { Stance::Pressure } else { Stance::Neutral },
        Stance::Relief => if struggling { Stance::Relief } else { Stance::Neutral },
        _ => s,
    }
}

/// What any levers of the Director look like: two at most; a grievance is
/// always against the player, of 1 to 6, and comes from an existing nation
/// other than the player; a calamity strikes one of the player's most populous tiles, for 1 to 30; a
/// windfall gives 1 to 40.
pub open spec fn levers_ok(cmds: Seq<Command>, d: Drama, player: u16) -> bool {
    &&& cmds.len() <= 2
    &&& forall|k: int| 0 <= k < cmds.len() ==> lever_ok(#[trigger] cmds[k], d, player)
}

/// One lever, as [`levers_ok`] says.
pub open spec fn lever_ok(c: Command, d: Drama, player: u16) -> bool {
    match c {
        Command::DirectorGrievance { from, to, amount } => {
            &&& to == player
            &&& 1 <= amount <= 6
            &&& from != player
            &&& d.existing@.contains(from)
        },
        Command::DirectorBlight { x, y, amount } => 1 <= amount <= 30 && d.player_top@.contains((x, y)),
        Command::DirectorWindfall { amount, .. } => 1 <= amount <= 40,
        _ => false,
    }
}

/// The rival the levers aim at: the focus if valid, else the strongest rival
/// if valid (an existing nation other than the player).
pub open spec fn target_rival(d: Drama, focus: Option<u16>, player: u16) -> Option<u16> {
    match valid_focus_spec(d.existing@, focus, player) {
        Some(r) => Some(r),
        None => valid_focus_spec(d.existing@, d.strongest_rival, player),
    }
}

impl Director {
    pub closed spec fn intent_spec(&self) -> Intent {
        self.intent
    }

    pub closed spec fn next_act_spec(&self) -> u64 {
        self.next_act
    }

    pub closed spec fn last_target_spec(&self) -> Option<(u32, u32)> {
        self.last_target
    }

    pub closed spec fn budget_spec(&self) -> i32 {
        self.pressure_budget
    }

    /// The equity budget stays within its bounds.
    pub open spec fn wf(&self) -> bool {
        -30 <= self.budget_spec() <= EQUITY_MAX
    }

    /// A Director with a neutral intention, no act scheduled and a full budget.
    pub fn new() -> (d: Self)
        ensures
            d.wf(),
            d.intent_spec().stance == Stance::Neutral,
            d.intent_spec().intensity == 0,
            d.intent_spec().duration == 6,
            d.intent_spec().until_turn == 0,
            d.intent_spec().focus is None,
            d.next_act_spec() == 0,
            d.last_target_spec() is None,
            d.budget_spec() == EQUITY_MAX,
    {
        Self { intent: Intent::neutral(), next_act: 0, last_target: None, pressure_budget: EQUITY_MAX }
    }

    /// Sets a new intention (from the language model), anchored on `now`.
    pub fn set_intent(&mut self, intent: Intent, now: u64)
        requires
            now as int + intent.duration as int <= u64::MAX,
        ensures
            final(self).intent_spec() == (Intent { until_turn: (now + intent.duration) as u64, ..intent }),
            final(self).next_act_spec() == old(self).next_act_spec(),
            final(self).last_target_spec() == old(self).last_target_spec(),
            final(self).budget_spec() == old(self).budget_spec(),
    {
        let mut intent = intent;
        intent.anchor(now);
        self.intent = intent;
    }

    /// The current intention (read only, for the audit display).
    pub fn intent(&self) -> (r: &Intent)
        ensures
            *r == self.intent_spec(),
    {
        &self.intent
    }

    /// Resolves the current intention against the current state (`drama`,
    /// month `turn`) into concrete levers. The budget regenerates by one each
    /// tick; an expired intention gives way to the baseline; the Director acts
    /// only when its aperiodic date comes, and only among two nations or more.
    pub fn resolve_tick(&mut self, turn: u64, drama: Drama, player: u16) -> (cmds: Vec<Command>)
        requires
            old(self).wf(),
            turn <= u64::MAX - 12,
        ensures
            final(self).wf(),
            levers_ok(cmds@, drama, player),
            ({
                let b1 = if old(self).budget_spec() < EQUITY_MAX { old(self).budget_spec() + 1 } else { old(self).budget_spec() as int };
                let intent = final(self).intent_spec();
                let next1 = if old(self).next_act_spec() == 0 { turn + act_gap_spec(turn) } else { old(self).next_act_spec() as int };
                let next2 = turn + act_gap_spec(turn);
                let last = old(self).last_target_spec();
                &&& if turn >= old(self).intent_spec().until_turn { baseline_of(intent, drama, turn) }
                    else { intent == old(self).intent_spec() }
                &&& if turn < next1 {
                    &&& cmds@ == Seq::<Command>::empty()
                    &&& final(self).next_act_spec() == next1
                    &&& final(self).last_target_spec() == last
                    &&& final(self).budget_spec() == b1
                } else {
                    let i = intent.intensity;
                    let t = turn;
                    let rival = target_rival(drama, intent.focus, player);
                    &&& final(self).next_act_spec() == next2
                    &&& if drama.nations < 2 {
                        &&& cmds@ == Seq::<Command>::empty()
                        &&& final(self).last_target_spec() == last
                        &&& final(self).budget_spec() == b1
                    } else {
                        match played_stance(intent.stance, drama.dominant, drama.struggling) {
                            Stance::Neutral => {
                                &&& cmds@ == Seq::<Command>::empty()
                                &&& final(self).last_target_spec() == last
                                &&& final(self).budget_spec() == b1
                            },
                            Stance::Pressure => if b1 <= 0 {
                                &&& cmds@ == Seq::<Command>::empty()
                                &&& final(self).last_target_spec() == last
                                &&& final(self).budget_spec() == b1
                            } else {
                                let ga = vary_spec(i / 18, t ^ 0xA1, 1, 6);
                                let g = match rival {
                                    Some(r) => seq![Command::DirectorGrievance { from: r, to: player, amount: ga }],
                                    None => Seq::empty(),
                                };
                                let b2 = if rival is Some { b1 - ga } else { b1 };
                                let target = pick_spec(drama.player_top@, t ^ 0xB2, last);
                                let ba = vary_spec(i / 5, t ^ 0xC3, 1, 30);
                                let c = target->0;
                                if drama.crushing && b2 > 0 && target is Some {
                                    &&& cmds@ == g.push(Command::DirectorBlight { x: c.0, y: c.1, amount: ba })
                                    &&& final(self).last_target_spec() == target
                                    &&& final(self).budget_spec() == b2 - ba
                                } else {
                                    &&& cmds@ == g
                                    &&& final(self).last_target_spec() == last
                                    &&& final(self).budget_spec() == b2
                                }
                            },
                            Stance::Relief => {
                                let target = pick_spec(drama.player_top@, t ^ 0xD4, last);
                                &&& final(self).budget_spec() == b1
                                &&& match target {
                                    Some(c) => {
                                        &&& cmds@ == seq![Command::DirectorWindfall { x: c.0, y: c.1, amount: vary_spec(i / 2, t ^ 0xE5, 1, 40) }]
                                        &&& final(self).last_target_spec() == target
                                    },
                                    None => {
                                        &&& cmds@ == Seq::<Command>::empty()
                                        &&& final(self).last_target_spec() == last
                                    },
                                }
                            },
                            Stance::ElevateRival => {
                                &&& final(self).budget_spec() == b1
                                &&& final(self).last_target_spec() == last
                                &&& match rival {
                                    Some(r) => {
                                        let target = pick_spec(tops_of(drama.rival_tops@, r), t ^ 0xF6, None);
                                        let w = match target {
                                            Some(c) => seq![Command::DirectorWindfall { x: c.0, y: c.1, amount: vary_spec(i / 3, t ^ 0x17, 1, 40) }],
                                            None => Seq::empty(),
                                        };
                                        cmds@ == w.push(Command::DirectorGrievance { from: r, to: player, amount: vary_spec(i / 20, t ^ 0x28, 1, 6) })
                                    },
                                    None => cmds@ == Seq::<Command>::empty(),
                                }
                            },
                        }
                    }
                }
            }),
    {
        if self.pressure_budget < EQUITY_MAX {
            self.pressure_budget = self.pressure_budget + 1;
        }
        if turn >= self.intent.until_turn {
            self.intent = Intent::baseline(&drama, turn);
        }
        if self.next_act == 0 {
            self.next_act = turn + act_gap(turn);
        }
        if turn < self.next_act {
            return Vec::new();
        }
        self.next_act = turn + act_gap(turn);
        if drama.nations < 2 {
            return Vec::new();
        }
        let stance = match self.intent.stance {
            Stance::Pressure => if drama.dominant { Stance::Pressure } else { Stance::Neutral },
            Stance::Relief => if drama.struggling { Stance::Relief } else { Stance::Neutral },
            s => s,
        };
        let i = self.intent.intensity;
        let t = turn;
        let mut cmds: Vec<Command> = Vec::new();
        let rival = match valid_focus(&drama.existing, self.intent.focus, player) {
            Some(r) => Some(r),
            None => valid_focus(&drama.existing, drama.strongest_rival, player),
        };
        match stance {
            Stance::Neutral => {},
            Stance::Pressure => {
                if self.pressure_budget <= 0 {
                    return Vec::new();
                }
                if let Some(r) = rival {
                    let amount = vary(i / 18, t ^ 0xA1, 1, 6);
                    cmds.push(Command::DirectorGrievance { from: r, to: player, amount });
                    self.pressure_budget = self.pressure_budget - amount as i32;
                }
                if drama.crushing && self.pressure_budget > 0 {
                    if let Some((x, y)) = pick(&drama.player_top, t ^ 0xB2, self.last_target) {
                        let amount = vary(i / 5, t ^ 0xC3, 1, 30);
                        cmds.push(Command::DirectorBlight { x, y, amount });
                        self.last_target = Some((x, y));
                        self.pressure_budget = self.pressure_budget - amount as i32;
                    }
                }
            },
            Stance::Relief => {
                if let Some((x, y)) = pick(&drama.player_top, t ^ 0xD4, self.last_target) {
                    let amount = vary(i / 2, t ^ 0xE5, 1, 40);
                    cmds.push(Command::DirectorWindfall { x, y, amount });
                    self.last_target = Some((x, y));
                }
            },
            Stance::ElevateRival => {
                if let Some(r) = rival {
                    let empty: Vec<(u32, u32)> = Vec::new();
                    let k = find_rival(&drama.rival_tops, r);
                    let cands = match k {
                        Some(k) => &drama.rival_tops[k].1,
                        None => &empty,
                    };
                    if let Some((x, y)) = pick(cands, t ^ 0xF6, None) {
                        let amount = vary(i / 3, t ^ 0x17, 1, 40);
                        cmds.push(Command::DirectorWindfall { x, y, amount });
                    }
                    let amount = vary(i / 20, t ^ 0x28, 1, 6);
                    cmds.push(Command::DirectorGrievance { from: r, to: player, amount });
                }
            },
        }
        cmds
    }
}

/// Grievance amount of the deterministic Director when the player dominates.
pub const DIRECTOR_PRESSURE: u32 = 5;
/// Calamity amount when the domination is crushing.
pub const DIRECTOR_BLIGHT: u32 = 25;
/// Windfall amount when the player struggles.
pub const DIRECTOR_RELIEF: u32 = 30;

/// The levers of the deterministic Director for the state `d`.
pub open spec fn direct_spec(d: Drama, player: u16) -> Seq<Command> {
    if d.nations < 2 {
        Seq::empty()
    } else if d.dominant {
        let g = match d.strongest_rival {
            Some(r) => seq![Command::DirectorGrievance { from: r, to: player, amount: DIRECTOR_PRESSURE }],
            None => Seq::empty(),
        };
        match d.player_best_tile {
            Some(c) => if d.crushing { g.push(Command::DirectorBlight { x: c.0, y: c.1, amount: DIRECTOR_BLIGHT }) } else { g },
            None => g,
        }
    } else if d.struggling {
        match d.player_worst_tile {
            Some(c) => seq![Command::DirectorWindfall { x: c.0, y: c.1, amount: DIRECTOR_RELIEF }],
            None => Seq::empty(),
        }
    } else {
        Seq::empty()
    }
}

/// The deterministic Director: it steers the game in the player's interest,
/// out of sight. A dominant player faces a coalition (a rival's grievance) and,
/// when crushing, a "natural" calamity on their best tile; a struggling player
/// gets a windfall on their most devastated tile.
pub fn direct(d: &Drama, player: u16) -> (cmds: Vec<Command>)
    ensures
        cmds@ == direct_spec(*d, player),
{
    let mut cmds: Vec<Command> = Vec::new();
    if d.nations < 2 {
        return cmds;
    }
    if d.dominant {
        if let Some(r) = d.strongest_rival {
            cmds.push(Command::DirectorGrievance { from: r, to: player, amount: DIRECTOR_PRESSURE });
        }
        if d.crushing {
            if let Some((x, y)) = d.player_best_tile {
                cmds.push(Command::DirectorBlight { x, y, amount: DIRECTOR_BLIGHT });
            }
        }
    } else if d.struggling {
        if let Some((x, y)) = d.player_worst_tile {
            cmds.push(Command::DirectorWindfall { x, y, amount: DIRECTOR_RELIEF });
        }
    }
    cmds
}

} // verus!
