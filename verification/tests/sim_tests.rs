use falling_sand::matter::{variate_channel, MatterId, MatterWithColor};
use falling_sand::sim::{CaSimulator, Point};

fn pt(x: i32, y: i32) -> Point {
    Point { x, y }
}

/// Counts the cells of each kind over the whole grid, via the query operator.
fn census(sim: &CaSimulator) -> (usize, usize, usize) {
    let mut empty: usize = 0;
    let mut sand: usize = 0;
    let mut wood: usize = 0;
    for y in 0..sim.height() as i32 {
        for x in 0..sim.width() as i32 {
            match sim.query_matter(pt(x, y)) {
                Some(MatterId::Empty) => empty += 1,
                Some(MatterId::Sand) => sand += 1,
                Some(MatterId::Wood) => wood += 1,
                None => panic!("in-grid query returned none"),
            }
        }
    }
    (empty, sand, wood)
}

#[test]
fn test_example_sandfall() {
    let mut sim = CaSimulator::new(64, 64);
    sim.draw_matter(&vec![pt(10, 10)], 0, MatterId::Sand);
    assert!(sim.query_matter(pt(10, 10)) == Some(MatterId::Sand));
    sim.step(1, false);
    assert!(sim.query_matter(pt(10, 10)) == Some(MatterId::Empty));
    assert!(sim.query_matter(pt(10, 9)) == Some(MatterId::Sand));
    assert!(sim.query_matter(pt(10, 8)) == Some(MatterId::Empty));
}

#[test]
fn sand_settles_on_the_floor() {
    let mut sim = CaSimulator::new(8, 8);
    sim.draw_matter(&vec![pt(3, 3)], 0, MatterId::Sand);
    sim.step(10, false);
    assert_eq!(sim.query_matter(pt(3, 0)), Some(MatterId::Sand));
    assert_eq!(sim.query_matter(pt(3, 3)), Some(MatterId::Empty));
}

#[test]
fn fan_out_over_wood() {
    let mut sim = CaSimulator::new(32, 32);
    sim.draw_matter(&vec![pt(10, 9)], 0, MatterId::Wood);
    sim.draw_matter(&vec![pt(10, 10)], 0, MatterId::Sand);
    sim.step(1, false);
    // the sand slid off the wood and was neither lost nor duplicated
    assert_eq!(sim.query_matter(pt(10, 10)), Some(MatterId::Empty));
    assert_eq!(sim.query_matter(pt(10, 9)), Some(MatterId::Wood));
    assert_eq!(census(&sim).1, 1);
    // once settled it rests on the floor, one column to the left or right
    sim.step(14, false);
    let left = sim.query_matter(pt(9, 0)) == Some(MatterId::Sand);
    let right = sim.query_matter(pt(11, 0)) == Some(MatterId::Sand);
    assert!(left != right);
    assert_eq!(census(&sim).1, 1);
}

#[test]
fn paused_step_is_a_no_op() {
    let mut sim = CaSimulator::new(16, 16);
    sim.draw_matter(&vec![pt(5, 12), pt(9, 12)], 2, MatterId::Sand);
    let before = sim.current_image().clone();
    sim.step(7, true);
    assert_eq!(sim.current_image(), &before);
    sim.step(0, false);
    assert_eq!(sim.current_image(), &before);
}

#[test]
fn query_outside_the_grid_returns_none() {
    let sim = CaSimulator::new(16, 16);
    assert_eq!(sim.query_matter(pt(-1, 5)), None);
    assert_eq!(sim.query_matter(pt(5, -1)), None);
    assert_eq!(sim.query_matter(pt(16, 5)), None);
    assert_eq!(sim.query_matter(pt(5, 16)), None);
    assert_eq!(sim.query_matter(pt(0, 0)), Some(MatterId::Empty));
}

#[test]
fn repeated_queries_agree() {
    let mut sim = CaSimulator::new(16, 16);
    sim.draw_matter(&vec![pt(4, 4)], 1, MatterId::Wood);
    let first = sim.query_matter(pt(4, 4));
    assert_eq!(first, sim.query_matter(pt(4, 4)));
    assert_eq!(first, sim.query_matter(pt(4, 4)));
    assert_eq!(first, Some(MatterId::Wood));
}

#[test]
fn stroke_partly_outside_touches_only_its_footprint() {
    let mut sim = CaSimulator::new(8, 8);
    // brush centered outside the corner: (0,0) is within distance 3 of
    // (-2,-2), while (1,1) is not
    sim.draw_matter(&vec![pt(-2, -2)], 3, MatterId::Sand);
    assert_eq!(sim.query_matter(pt(0, 0)), Some(MatterId::Sand));
    assert_eq!(sim.query_matter(pt(1, 1)), Some(MatterId::Empty));
    assert_eq!(sim.query_matter(pt(7, 7)), Some(MatterId::Empty));
    // a stroke wholly outside changes nothing
    sim.draw_matter(&vec![pt(100, 100)], 4, MatterId::Wood);
    assert_eq!(census(&sim).2, 0);
}

#[test]
fn empty_stroke_paints_nothing() {
    let mut sim = CaSimulator::new(8, 8);
    let no_points: Vec<Point> = Vec::new();
    sim.draw_matter(&no_points, 5, MatterId::Sand);
    assert_eq!(census(&sim), (64, 0, 0));
}

#[test]
fn matter_is_conserved_across_steps() {
    let mut sim = CaSimulator::new(24, 24);
    sim.draw_matter(&vec![pt(6, 3), pt(17, 3)], 0, MatterId::Wood);
    sim.draw_matter(&vec![pt(8, 18), pt(14, 20)], 3, MatterId::Sand);
    let before = census(&sim);
    assert!(before.1 > 0);
    for _ in 0..25 {
        sim.step(1, false);
        assert_eq!(census(&sim), before);
    }
}

#[test]
fn wood_never_moves() {
    let mut sim = CaSimulator::new(16, 16);
    // floating wood with sand poured on top of it
    sim.draw_matter(&vec![pt(7, 6)], 1, MatterId::Wood);
    sim.draw_matter(&vec![pt(7, 12)], 2, MatterId::Sand);
    for _ in 0..30 {
        sim.step(1, false);
        assert_eq!(sim.query_matter(pt(7, 6)), Some(MatterId::Wood));
        assert_eq!(sim.query_matter(pt(6, 6)), Some(MatterId::Wood));
        assert_eq!(sim.query_matter(pt(8, 6)), Some(MatterId::Wood));
        assert_eq!(sim.query_matter(pt(7, 7)), Some(MatterId::Wood));
        assert_eq!(sim.query_matter(pt(7, 5)), Some(MatterId::Wood));
    }
}

#[test]
fn painting_empty_erases() {
    let mut sim = CaSimulator::new(8, 8);
    sim.draw_matter(&vec![pt(4, 4)], 2, MatterId::Sand);
    assert_eq!(sim.query_matter(pt(4, 4)), Some(MatterId::Sand));
    sim.draw_matter(&vec![pt(4, 4)], 2, MatterId::Empty);
    assert_eq!(census(&sim), (64, 0, 0));
}

#[test]
fn rule_decision_is_deterministic_given_the_coin() {
    let mut sim = CaSimulator::new(16, 16);
    sim.draw_matter(&vec![pt(5, 5)], 0, MatterId::Sand);
    // below is empty: straight down, whatever the coin
    assert_eq!(sim.rule_decision(5, 5, true), Some((5, 4)));
    assert_eq!(sim.rule_decision(5, 5, false), Some((5, 4)));
    // below blocked, both diagonals free: the coin decides (true = left)
    sim.draw_matter(&vec![pt(5, 4)], 0, MatterId::Wood);
    assert_eq!(sim.rule_decision(5, 5, true), Some((4, 4)));
    assert_eq!(sim.rule_decision(5, 5, false), Some((6, 4)));
    // empty and wood cells never move
    assert_eq!(sim.rule_decision(5, 4, true), None);
    assert_eq!(sim.rule_decision(8, 8, false), None);
}

#[test]
fn step_phase_moves_only_its_phase() {
    let mut sim = CaSimulator::new(6, 6);
    sim.draw_matter(&vec![pt(4, 3)], 0, MatterId::Sand);
    let coins = vec![false; 36];
    // column 4 belongs to phase 1; phases 0 and 2 leave it alone
    sim.step_phase(0, &coins);
    sim.step_phase(2, &coins);
    assert_eq!(sim.query_matter(pt(4, 3)), Some(MatterId::Sand));
    sim.step_phase(1, &coins);
    assert_eq!(sim.query_matter(pt(4, 3)), Some(MatterId::Empty));
    assert_eq!(sim.query_matter(pt(4, 2)), Some(MatterId::Sand));
}

#[test]
fn cells_encode_their_kind() {
    assert_eq!(MatterWithColor::new(MatterId::Sand).matter_id(), MatterId::Sand);
    assert_eq!(MatterWithColor::new(MatterId::Wood).matter_id(), MatterId::Wood);
    // empty keeps the fixed all-zero background color
    assert_eq!(MatterWithColor::new(MatterId::Empty).value, 0);
    // decoding is total: an unknown ordinal byte reads as empty
    assert_eq!(MatterWithColor { value: 0x12345607 }.matter_id(), MatterId::Empty);
    assert_eq!(MatterId::decode(2), MatterId::Wood);
    assert_eq!(MatterId::decode(255), MatterId::Empty);
    assert_eq!(MatterId::default(), MatterId::Empty);
    assert_eq!(MatterId::from(1u8), MatterId::Sand);
    assert_eq!(MatterWithColor::from(0x00000002u32).matter_id(), MatterId::Wood);
}

#[test]
fn canonical_colors_and_jitter() {
    assert_eq!(MatterId::Sand.color_rgba_u8(), [0xc2, 0xb2, 0x80, 0xff]);
    assert_eq!(MatterId::Wood.color_rgba_u8(), [0xba, 0x8c, 0x63, 0xff]);
    assert_eq!(MatterId::Empty.color_rgba_u8(), [0, 0, 0, 0]);
    // jitter byte 0 gives the largest darkening, 255 the largest lightening
    assert_eq!(variate_channel(0x80, 0), 0x80 - 25);
    assert_eq!(variate_channel(0x80, 255), 0x80 + 26);
    assert_eq!(variate_channel(10, 0), 0);
    assert_eq!(variate_channel(250, 255), 255);
}

#[test]
fn image_reflects_the_painted_grid() {
    let mut sim = CaSimulator::new(8, 8);
    sim.draw_matter(&vec![pt(2, 3)], 0, MatterId::Sand);
    let image = sim.current_image();
    assert_eq!(image.len(), 64);
    // row-major: cell (2, 3) is entry 3 * 8 + 2; its low byte is the ordinal
    assert_eq!(image[3 * 8 + 2] & 0xff, 1);
    assert_eq!(image[0], 0);
}
