use enyo::director::{act_gap, direct, jitter, pick, vary, valid_focus, Director, Drama, Intent, Stance, DIRECTOR_BLIGHT,
    DIRECTOR_PRESSURE, DIRECTOR_RELIEF};
use enyo::llm::parse_actions;
use enyo::proto::Command;

/// The state of a two-nation game, as the application measures it.
fn drama(dominant: bool, crushing: bool, struggling: bool) -> Drama {
    Drama {
        nations: 2,
        dominant,
        crushing,
        struggling,
        strongest_rival: Some(1),
        existing: vec![0, 1],
        dominance_x200: if dominant { 80 } else { -80 },
        player_top: vec![(4, 4), (5, 4), (6, 4)],
        rival_tops: vec![(1, vec![(20, 10), (21, 10)])],
        player_best_tile: Some((4, 4)),
        player_worst_tile: Some((6, 4)),
    }
}

#[test]
fn director_pressures_a_dominant_player() {
    let cmds = direct(&drama(true, false, false), 0);
    assert!(
        cmds.iter().any(|c| matches!(c, Command::DirectorGrievance { to: 0, .. })),
        "the Director must stir a coalition against the dominant player"
    );
}

#[test]
fn director_relieves_a_struggling_player() {
    let cmds = direct(&drama(false, false, true), 0);
    assert!(
        cmds.iter().any(|c| matches!(c, Command::DirectorWindfall { .. })),
        "the Director must relieve the struggling player"
    );
}

#[test]
fn direct_levers_exact() {
    assert_eq!(
        direct(&drama(true, true, false), 0),
        vec![
            Command::DirectorGrievance { from: 1, to: 0, amount: DIRECTOR_PRESSURE },
            Command::DirectorBlight { x: 4, y: 4, amount: DIRECTOR_BLIGHT },
        ]
    );
    assert_eq!(
        direct(&drama(false, false, true), 0),
        vec![Command::DirectorWindfall { x: 6, y: 4, amount: DIRECTOR_RELIEF }]
    );
    assert!(direct(&drama(false, false, false), 0).is_empty());
    let mut alone = drama(true, true, false);
    alone.nations = 1;
    assert!(direct(&alone, 0).is_empty(), "no rival, nothing to stage");
}

#[test]
fn baseline_intentions() {
    let p = Intent::baseline(&drama(true, false, false), 10);
    assert_eq!(p.stance, Stance::Pressure);
    assert_eq!(p.intensity, 80);
    assert_eq!(p.until_turn, 22);
    assert_eq!(p.focus, Some(1));
    let mut strong = drama(true, false, false);
    strong.dominance_x200 = 150;
    assert_eq!(Intent::baseline(&strong, 0).intensity, 100);
    strong.dominance_x200 = 5;
    assert_eq!(Intent::baseline(&strong, 0).intensity, 20);
    let r = Intent::baseline(&drama(false, false, true), 10);
    assert_eq!(r.stance, Stance::Relief);
    assert_eq!(r.intensity, 60);
    let n = Intent::baseline(&drama(false, false, false), 10);
    assert_eq!(n.stance, Stance::Neutral);
    assert_eq!(n.until_turn, 16);
}

#[test]
fn cadence_and_amounts_stay_bounded() {
    for t in 0..200u64 {
        let g = act_gap(t);
        assert!((2..=5).contains(&g), "aperiodic gap in 2..=5");
        let v = vary(30, t, 1, 40);
        assert!((1..=40).contains(&v));
    }
    // The jitter is a pure function of its seed.
    assert_eq!(jitter(12345), jitter(12345));
    // ±20 % around the base: 100 varies within 80..=120.
    for s in 0..50u64 {
        let v = vary(100, s, 1, 1000);
        assert!((80..=120).contains(&v));
    }
}

#[test]
fn pick_avoids_the_last_target() {
    let cands = vec![(1, 1), (2, 2), (3, 3)];
    for s in 0..100u64 {
        let first = pick(&cands, s, None).unwrap();
        let again = pick(&cands, s, Some(first)).unwrap();
        assert_ne!(first, again, "never the same tile twice in a row");
    }
    assert_eq!(pick(&Vec::new(), 3, None), None);
    assert_eq!(pick(&vec![(7, 7)], 3, Some((7, 7))), Some((7, 7)));
}

#[test]
fn focus_is_validated() {
    let existing = vec![0u16, 1, 2];
    assert_eq!(valid_focus(&existing, Some(2), 0), Some(2));
    assert_eq!(valid_focus(&existing, Some(0), 0), None, "never the player itself");
    assert_eq!(valid_focus(&existing, Some(9), 0), None, "never a ghost nation");
    assert_eq!(valid_focus(&existing, None, 0), None);
}

#[test]
fn director_tick_acts_on_its_date() {
    let mut d = Director::new();
    let mut acted = false;
    for turn in 0..24u64 {
        let cmds = d.resolve_tick(turn, drama(true, false, false), 0);
        if !cmds.is_empty() {
            acted = true;
            assert!(cmds.iter().all(|c| matches!(c, Command::DirectorGrievance { from: 1, to: 0, .. })));
        }
    }
    assert!(acted, "a dominant player is pressed within two years");
    assert_eq!(d.intent().stance, Stance::Pressure);
}

#[test]
fn parses_and_clamps_valid_actions() {
    let json = r#"{"reasoning":"x","actions":[
        {"lever":"grievance","from":1,"to":0,"amount":5},
        {"lever":"blight","x":10,"y":10,"amount":20},
        {"lever":"windfall","x":5,"y":5,"amount":50}
    ]}"#;
    let cmds = parse_actions(json, 50, 40).expect("valid json");
    assert_eq!(cmds.len(), 3);
    assert!(matches!(cmds[0], Command::DirectorGrievance { from: 1, to: 0, amount: 5 }));
    assert!(matches!(cmds[1], Command::DirectorBlight { x: 10, y: 10, amount: 20 }));
    // 50 is over the windfall cap (40): bounded.
    assert!(matches!(cmds[2], Command::DirectorWindfall { amount: 40, .. }));
}

#[test]
fn drops_out_of_bounds_and_rejects_bad_json() {
    let json = r#"{"actions":[{"lever":"blight","x":999,"y":999,"amount":10}]}"#;
    assert!(parse_actions(json, 50, 40).expect("valid json").is_empty(), "target off the map: ignored");
    assert!(parse_actions("ceci n'est pas du json", 50, 40).is_none());
}

#[test]
fn extracts_json_from_markdown_fences() {
    let wrapped = "```json\n{\"actions\":[{\"lever\":\"grievance\",\"from\":2,\"to\":0,\"amount\":3}]}\n```";
    let cmds = parse_actions(wrapped, 50, 40).expect("json block extracted");
    assert_eq!(cmds.len(), 1);
}

#[test]
fn parse_actions_skips_unknown_levers() {
    let json = r#"{"actions":[{"lever":"earthquake","x":1,"y":1},{"lever":"grievance","from":3,"to":3,"amount":2},
        {"lever":"grievance","from":3,"to":1,"amount":20},{"lever":"windfall","x":1,"y":1,"amount":5}]}"#;
    let cmds = parse_actions(json, 50, 40).expect("valid json");
    // Unknown lever and reflexive grievance dropped; amount bounded to 10;
    // only the first three actions are read.
    assert_eq!(cmds, vec![Command::DirectorGrievance { from: 3, to: 1, amount: 10 }]);
}

#[test]
fn intent_lasts_its_duration_from_now() {
    let mut i = Intent::neutral();
    i.duration = 2;
    i.anchor(10);
    assert_eq!(i.until_turn, 12);
    let mut d = Director::new();
    let mut j = Intent::neutral();
    j.duration = 3;
    d.set_intent(j, 20);
    assert_eq!(d.intent().until_turn, 23);
    assert_eq!(d.intent().duration, 3);
}

#[test]
fn director_never_voices_a_ghost_grievance() {
    let mut d = Director::new();
    let mut ghost = drama(true, false, false);
    ghost.strongest_rival = Some(9);
    for turn in 0..24u64 {
        let cmds = d.resolve_tick(turn, ghost.clone(), 0);
        assert!(!cmds.iter().any(|c| matches!(c, Command::DirectorGrievance { .. })), "{:?}", cmds);
    }
}
