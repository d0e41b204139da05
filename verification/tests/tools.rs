use enyo::audit::{checksum, fnv_u32, FNV_OFFSET, FNV_PRIME};
use enyo::connect::{census, find, regions, union};
use enyo::frontier::border_pairs;
use enyo::gui::{blend, text_w, Button, Canvas, ACCENT, BG};
use enyo::proto::Building;
use enyo::realm::{Plot, Realm};
use enyo::text::{extract_json, parse_uint, parse_xy, trim, Args};
use enyo::tile::TileKind;
use enyo::view::{camera_step, clamp_cam, hash2, nation_bbox, nations_bbox, viewport_rect, Camera, CameraInput};

fn args_of(v: &[&str]) -> Vec<String> {
    v.iter().map(|s| s.to_string()).collect()
}

#[test]
fn args_read_options() {
    let a = Args::from_args(args_of(&["--seed", "42", "--turns", "100", "--inspect", "3, 4", "--wat"]));
    assert_eq!(a.seed, 42);
    assert_eq!(a.turns, 100);
    assert_eq!(a.width, 800);
    assert_eq!(a.height, 500);
    assert_eq!(a.log, "logs/run.jsonl");
    assert_eq!(a.inspect, Some((3, 4)));
    assert_eq!(a.snapshot, None);
    assert_eq!(a.ignored, vec!["--wat".to_string()]);
    // A number that does not parse leaves the setting as it was.
    let b = Args::from_args(args_of(&["--width", "abc", "--log", "x.jsonl", "--snapshot", "s.json"]));
    assert_eq!(b.width, 800);
    assert_eq!(b.log, "x.jsonl");
    assert_eq!(b.snapshot, Some("s.json".to_string()));
}

#[test]
fn text_helpers() {
    assert_eq!(trim("  a b \n"), "a b");
    assert_eq!(parse_uint("123", 1000), Some(123));
    assert_eq!(parse_uint("+7", 1000), Some(7));
    assert_eq!(parse_uint("1001", 1000), None);
    assert_eq!(parse_uint("", 1000), None);
    assert_eq!(parse_uint("1x", 1000), None);
    assert_eq!(parse_xy("10,20".to_string()), Some((10, 20)));
    assert_eq!(parse_xy("10;20".to_string()), None);
    assert_eq!(extract_json("bla {\"a\":{}} bla"), "{\"a\":{}}");
    assert_eq!(extract_json("} no {"), "} no {");
    assert_eq!(extract_json("nothing"), "nothing");
}

#[test]
fn fnv_mixes_bytes() {
    let mut h = FNV_OFFSET;
    fnv_u32(&mut h, 0);
    let mut e = FNV_OFFSET;
    for _ in 0..4 {
        e = e.wrapping_mul(FNV_PRIME);
    }
    assert_eq!(h, e);
    let mut a = FNV_OFFSET;
    fnv_u32(&mut a, 1);
    assert_ne!(a, h);
}

#[test]
fn checksum_tracks_the_state() {
    let mut r = Realm::new(4, 3, &vec![TileKind::Land; 12]);
    let tiles = vec![[0u32; 10]; 12];
    let c0 = checksum(0, &r, &tiles, &Vec::new(), &Vec::new());
    assert_eq!(c0, checksum(0, &r, &tiles, &Vec::new(), &Vec::new()), "a pure function of the state");
    assert_ne!(c0, checksum(1, &r, &tiles, &Vec::new(), &Vec::new()), "the turn counts");
    r.settle(1, 1, 0, 10);
    let c1 = checksum(0, &r, &tiles, &vec![0], &Vec::new());
    assert_ne!(c0, c1, "ownership counts");
    assert_ne!(c1, checksum(0, &r, &tiles, &vec![0], &vec![(0, 1, 5)]), "grievances count");
}

fn plot(kind: TileKind, owner: Option<u16>, building: Option<Building>) -> Plot {
    Plot { kind, owner, occupier: None, building }
}

#[test]
fn union_find_joins_classes() {
    let mut root: Vec<u32> = (0..6).collect();
    union(&mut root, 4, 2);
    union(&mut root, 5, 4);
    assert_eq!(find(&mut root, 5), 2);
    assert_eq!(find(&mut root, 4), 2);
    assert_eq!(find(&mut root, 3), 3);
    union(&mut root, 0, 5);
    assert_eq!(find(&mut root, 2), 0, "the smaller root stays");
}

#[test]
fn regions_and_census() {
    // Row 0: A A . B ; row 1: A . B B (width 4, X wraps: (3,0) touches (0,0)).
    let a = Some(0u16);
    let b = Some(1u16);
    let plots = vec![
        plot(TileKind::Land, a, Some(Building::Industry)),
        plot(TileKind::Land, a, Some(Building::Commerce)),
        plot(TileKind::Land, None, None),
        plot(TileKind::Land, b, Some(Building::Farm)),
        plot(TileKind::Land, a, Some(Building::City)),
        plot(TileKind::Land, None, None),
        plot(TileKind::Land, b, None),
        plot(TileKind::Land, b, Some(Building::Military)),
    ];
    let label = regions(&plots, 4, 2);
    assert_eq!(label, vec![0, 0, 2, 3, 0, 5, 3, 3]);
    let (jobs, commerce) = census(&plots, &label);
    assert_eq!(jobs[0], 2, "industry and commerce are jobs; a city is not");
    assert_eq!(jobs[3], 2);
    assert!(commerce[0]);
    assert!(!commerce[3]);
}

#[test]
fn borders_come_sorted_once() {
    let a = Some(0u16);
    let b = Some(1u16);
    let c = Some(2u16);
    // Row: A B . C A (width 5, X wraps: A at 4 touches A at 0).
    let plots = vec![
        plot(TileKind::Land, a, None),
        plot(TileKind::Land, b, None),
        plot(TileKind::Land, None, None),
        plot(TileKind::Land, c, None),
        plot(TileKind::Land, a, None),
    ];
    assert_eq!(border_pairs(&plots, 5, 1), vec![(0, 1), (0, 2), (1, 0), (2, 0)]);
    let alone = vec![plot(TileKind::Land, a, None), plot(TileKind::Land, a, None)];
    assert!(border_pairs(&alone, 2, 1).is_empty());
}

#[test]
fn camera_and_viewport() {
    assert_eq!(clamp_cam(50, 20, 100), 40);
    assert_eq!(clamp_cam(5, 20, 100), 0);
    assert_eq!(clamp_cam(99, 20, 100), 80);
    assert_eq!(clamp_cam(10, 200, 100), 0);
    let r = Realm::new(100, 60, &vec![TileKind::Land; 6000]);
    // 16-pixel tiles in 800x480: 50x30 tiles, centred on (50, 30).
    assert_eq!(viewport_rect(&r, 50, 30, 16, 800, 480), (25, 15, 50, 30, 16));
    // Tile size clamped to 4..=64.
    assert_eq!(viewport_rect(&r, 0, 0, 1, 40, 40).4, 4);
}

#[test]
fn bounding_boxes() {
    let mut r = Realm::new(20, 10, &vec![TileKind::Land; 200]);
    assert_eq!(nations_bbox(&r, 2), None);
    r.settle(5, 4, 0, 10);
    r.settle(8, 6, 0, 10);
    r.settle(15, 2, 1, 10);
    assert_eq!(nation_bbox(&r, 0, 0), Some((5, 4, 4, 3)));
    assert_eq!(nation_bbox(&r, 0, 1), Some((4, 3, 6, 5)));
    assert_eq!(nation_bbox(&r, 2, 1), None);
    assert_eq!(nations_bbox(&r, 0), Some((5, 2, 11, 5)));
}

#[test]
fn hash_is_stable() {
    assert_eq!(hash2(3, 7), hash2(3, 7));
    assert_ne!(hash2(3, 7), hash2(7, 3));
    assert_eq!(hash2(0, 0), 0);
}

#[test]
fn canvas_drawing() {
    let mut c = Canvas::new(vec![BG; 16 * 8], 16, 8);
    c.fill_rect(-2, -2, 4, 3, ACCENT);
    assert_eq!(c.buf[0], ACCENT);
    assert_eq!(c.buf[1], ACCENT);
    assert_eq!(c.buf[2], BG);
    assert_eq!(c.buf[16], BG);
    c.rect_outline(4, 2, 4, 4, 7);
    assert_eq!(c.buf[2 * 16 + 4], 7);
    assert_eq!(c.buf[3 * 16 + 5], BG, "the inside stays");
    assert_eq!(blend(0x000000, 0xFFFFFF, 255), 0xFFFFFF);
    assert_eq!(blend(0x000000, 0xFFFFFF, 0), 0x000000);
    c.blend_rect(0, 7, 16, 1, 0xFFFFFF, 255);
    assert_eq!(c.buf[7 * 16 + 3], 0xFFFFFF);
    assert_eq!(text_w("abc", 2), 48);
}

#[test]
fn glyphs_draw_font_pixels() {
    let mut c = Canvas::new(vec![0; 8 * 8], 8, 8);
    c.glyph(0, 0, ' ', 1, 1);
    assert!(c.buf.iter().all(|&p| p == 0), "a space draws nothing");
    c.glyph(0, 0, 'A', 1, 1);
    assert!(c.buf.iter().any(|&p| p == 1), "a letter draws pixels");
    let mut d = Canvas::new(vec![0; 8 * 8], 8, 8);
    d.text(0, 0, "A", 1, 1);
    assert_eq!(c.buf, d.buf, "text is a row of glyphs");
}

#[test]
fn buttons() {
    let b = Button::new(10, 10, 40, 20, "OK".to_string());
    assert!(b.hit(10, 10));
    assert!(b.hit(49, 29));
    assert!(!b.hit(50, 29));
    assert!(!b.hit(9, 15));
    let mut c = Canvas::new(vec![0; 64 * 40], 64, 40);
    b.draw(&mut c, false, true);
    assert_eq!(c.buf[11 * 64 + 11], ACCENT, "an active button is filled with the accent");
}

#[test]
fn text_of_spaces_draws_nothing_and_text_stays_in_its_box() {
    let mut c = Canvas::new(vec![0; 40 * 20], 40, 20);
    c.text(2, 3, "   ", 1, ACCENT);
    assert!(c.buf.iter().all(|&p| p == 0));
    c.text(2, 3, "Ab", 1, ACCENT);
    let w = text_w("Ab", 1);
    let mut lit = 0;
    for (i, &p) in c.buf.iter().enumerate() {
        if p != 0 {
            let (x, y) = ((i % 40) as i32, (i / 40) as i32);
            assert!(p == ACCENT && 2 <= x && x < 2 + w && 3 <= y && y < 3 + 8);
            lit += 1;
        }
    }
    assert!(lit > 0);
}

fn keys(left: bool, right: bool, up: bool, down: bool, wheel: i32) -> CameraInput {
    CameraInput { left, right, up, down, wheel }
}

#[test]
fn camera_pans_within_the_map_and_zooms_between_bounds() {
    let c = Camera { x: 1, y: 10, px: 16 };
    assert_eq!(camera_step(c, keys(true, false, false, false, 0), 800, 500), Camera { x: 0, y: 10, px: 16 });
    assert_eq!(camera_step(c, keys(false, true, false, true, 0), 800, 500), Camera { x: 3, y: 12, px: 16 });
    let edge = Camera { x: 798, y: 499, px: 38 };
    assert_eq!(camera_step(edge, keys(false, true, false, true, 1), 800, 500), Camera { x: 799, y: 499, px: 40 });
    let small = Camera { x: 5, y: 5, px: 8 };
    assert_eq!(camera_step(small, keys(false, false, true, false, -1), 800, 500), Camera { x: 5, y: 3, px: 6 });
    assert_eq!(camera_step(small, keys(true, true, false, false, 0), 800, 500), Camera { x: 5, y: 5, px: 8 });
}

#[test]
fn outline_paints_the_border_only() {
    let mut c = Canvas::new(vec![1; 6 * 5], 6, 5);
    c.rect_outline(1, 1, 4, 3, 9);
    for py in 0..5usize {
        for px in 0..6usize {
            let inside = (1..5).contains(&px) && (1..4).contains(&py);
            let border = inside && (px == 1 || px == 4 || py == 1 || py == 3);
            assert_eq!(c.buf[py * 6 + px], if border { 9 } else { 1 }, "pixel ({px}, {py})");
        }
    }
}
