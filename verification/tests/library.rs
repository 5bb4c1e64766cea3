use peter_math::frame::{frame_tick, FrameAction, FRAME_INTERVAL_NANOS};
use peter_math::gpu::write_u32;
use peter_math::perf::iterations_for;
use peter_math::simulation::life::patterns::classify_component;
use peter_math::simulation::life::{
    detect_oscillator_period, rle_text_fits, BitGrid, KnownPattern, LifeRlePattern, LifeSim,
    LifeStateHash, RleError,
};
use peter_math::simulation::{wrap_index, RenderStyle};

fn sim_with(w: usize, h: usize, live: &[(usize, usize)]) -> LifeSim {
    let mut sim = LifeSim::new(w, h, 7);
    sim.clear();
    for &(x, y) in live {
        sim.set_cell(x, y, true);
    }
    sim
}

fn sorted(mut v: Vec<(usize, usize)>) -> Vec<(usize, usize)> {
    v.sort();
    v
}

#[test]
fn wrap_index_wraps_both_directions() {
    assert_eq!(wrap_index(0, 0, 4, 3), 0);
    assert_eq!(wrap_index(3, 2, 4, 3), 11);
    assert_eq!(wrap_index(-1, -1, 4, 3), 11);
    assert_eq!(wrap_index(4, 3, 4, 3), 0);
    assert_eq!(wrap_index(-5, 7, 4, 3), 7);
}

#[test]
fn bit_grid_set_get_and_fill() {
    let mut grid = BitGrid::new(70);
    assert_eq!(grid.len(), 70);
    assert!((0..70).all(|i| !grid.get(i)));
    grid.set(69, true);
    grid.set(3, true);
    assert!(grid.get(69));
    assert!(grid.get(3));
    assert!(!grid.get(68));
    grid.set(3, false);
    assert!(!grid.get(3));
    grid.fill(true);
    assert!((0..70).all(|i| grid.get(i)));
    grid.fill(false);
    assert!((0..70).all(|i| !grid.get(i)));
}

#[test]
fn iterations_follow_the_grid_size() {
    assert_eq!(iterations_for(64, 9, 5, 2), 9);
    assert_eq!(iterations_for(128, 9, 5, 2), 9);
    assert_eq!(iterations_for(129, 9, 5, 2), 5);
    assert_eq!(iterations_for(256, 9, 5, 2), 5);
    assert_eq!(iterations_for(257, 9, 5, 2), 2);
}

#[test]
fn write_u32_writes_four_native_bytes_in_place() {
    let mut bytes = [0xaau8; 10];
    write_u32(&mut bytes, 3, 0x1122_3344);
    assert_eq!(&bytes[3..7], &0x1122_3344u32.to_ne_bytes());
    assert!(bytes[..3].iter().all(|&b| b == 0xaa));
    assert!(bytes[7..].iter().all(|&b| b == 0xaa));
}

#[test]
fn labels_and_kinds() {
    assert_eq!(RenderStyle::RawMath.label(), "数学原始图");
    assert_eq!(RenderStyle::Artistic.label(), "艺术表达图");
    assert_eq!(RenderStyle::LifeHighlight.label(), "生命高光图");
    assert_eq!(KnownPattern::Block.label(), "方块");
    assert_eq!(KnownPattern::Glider.label(), "滑翔机");
    assert_eq!(KnownPattern::Beehive.kind(), "静物");
    assert_eq!(KnownPattern::Toad.kind(), "振荡器");
    assert_eq!(KnownPattern::Glider.kind(), "飞船");
}

#[test]
fn rle_errors() {
    assert_eq!(LifeRlePattern::parse("").err(), Some(RleError::EmptyBody));
    assert_eq!(
        LifeRlePattern::parse("#C only a comment\nx = 3, y = 3\n").err(),
        Some(RleError::EmptyBody)
    );
    assert_eq!(
        LifeRlePattern::parse("x = 3, y = 1\nbo?o!").err(),
        Some(RleError::UnsupportedToken('?'))
    );
}

#[test]
fn rle_counts_and_growth() {
    let p = LifeRlePattern::parse("12o!").expect("valid");
    assert_eq!((p.width, p.height), (12, 1));
    assert_eq!(p.cells.len(), 12);
    assert_eq!(p.cells[11], (11, 0));
    let q = LifeRlePattern::parse("x = 1, y = 1\n2$3bo!").expect("valid");
    assert_eq!((q.width, q.height), (4, 3));
    assert_eq!(q.cells, vec![(3, 2)]);
    let r = LifeRlePattern::parse("x = 9, y = 9\nob o\n!").expect("valid");
    assert_eq!((r.width, r.height), (9, 9));
    assert_eq!(r.cells, vec![(0, 0), (2, 0)]);
}

#[test]
fn empty_grid_exports_empty_pattern() {
    let sim = sim_with(8, 8, &[]);
    assert_eq!(sim.export_rle(), "x = 0, y = 0, rule = B3/S23\n!\n");
    let back = LifeRlePattern::parse(&sim.export_rle()).expect("valid");
    assert_eq!((back.width, back.height), (0, 0));
    assert!(back.cells.is_empty());
}

#[test]
fn exported_glider_reads_back() {
    let glider = LifeRlePattern::parse("x = 3, y = 3\nbob$2bo$3o!").expect("valid");
    let mut sim = LifeSim::new(16, 16, 1);
    sim.apply_rle_centered(&glider);
    let text = sim.export_rle();
    assert_eq!(text, "x = 3, y = 3, rule = B3/S23\nbob$2bo$3o!\n");
    let back = LifeRlePattern::parse(&text).expect("valid");
    assert_eq!((back.width, back.height), (3, 3));
    assert_eq!(back.cells, glider.cells);
}

#[test]
fn exported_rows_use_counts() {
    let sim = sim_with(20, 6, &[(2, 1), (3, 1), (4, 1), (2, 3), (13, 3)]);
    let text = sim.export_rle();
    assert_eq!(text, "x = 12, y = 3, rule = B3/S23\n3o9b$12b$o10bo!\n");
    let back = LifeRlePattern::parse(&text).expect("valid");
    assert_eq!((back.width, back.height), (12, 3));
    assert_eq!(back.cells, vec![(0, 0), (1, 0), (2, 0), (0, 2), (11, 2)]);
}

#[test]
fn blinker_flips_and_block_stays() {
    let mut sim = sim_with(6, 6, &[(1, 2), (2, 2), (3, 2)]);
    sim.step();
    assert_eq!(sorted(sim.live_points()), vec![(2, 1), (2, 2), (2, 3)]);
    sim.step();
    assert_eq!(sorted(sim.live_points()), vec![(1, 2), (2, 2), (3, 2)]);

    let mut block = sim_with(6, 6, &[(0, 0), (1, 0), (0, 1), (1, 1)]);
    block.step();
    assert_eq!(sorted(block.live_points()), vec![(0, 0), (0, 1), (1, 0), (1, 1)]);
}

#[test]
fn life_wraps_around_the_torus() {
    let mut sim = sim_with(5, 5, &[(4, 0), (0, 0), (1, 0)]);
    sim.step();
    assert_eq!(sorted(sim.live_points()), vec![(0, 0), (0, 1), (0, 4)]);
}

#[test]
fn empty_grid_stays_empty() {
    let mut sim = sim_with(7, 5, &[]);
    for _ in 0..3 {
        sim.step();
    }
    assert!(sim.live_points().is_empty());
    assert!(sim.detect_known_patterns(&[], 0).detections.is_empty());
}

#[test]
fn symmetric_seed_is_mirrored() {
    let w = 40;
    let h = 30;
    let sim = LifeSim::new(w, h, 3);
    let points = sim.live_points();
    assert!(!points.is_empty());
    for &(x, y) in &points {
        let mirror = (w - x) % w;
        assert!(sim.get_cell(mirror, y), "({x}, {y}) has no mirror");
    }
}

#[test]
fn set_cell_outside_changes_nothing() {
    let mut sim = sim_with(4, 4, &[(1, 1)]);
    sim.set_cell(4, 0, true);
    sim.set_cell(0, 9, true);
    assert_eq!(sim.live_points(), vec![(1, 1)]);
    assert!(sim.get_cell(1, 1));
    assert_eq!(sim.size(), (4, 4));
}

#[test]
fn reset_preset_picks_seed_or_given_cells() {
    let mut sim = LifeSim::new(10, 10, 5);
    let seeded = sim.live_points();
    let mut random = vec![false; 100];
    random[42] = true;
    sim.reset_preset("random_soup", &random);
    assert_eq!(sim.live_points(), vec![(2, 4)]);
    sim.reset_preset("symmetric_seed", &random);
    assert_eq!(sim.live_points(), seeded);
    sim.load_cells(&random);
    assert_eq!(sim.live_points(), vec![(2, 4)]);
}

#[test]
fn raw_render_is_white_on_dark() {
    let sim = sim_with(2, 2, &[(1, 0)]);
    let mut out = [0u8; 16];
    sim.render_raw_rgba(&mut out);
    assert_eq!(&out[0..4], &[16, 16, 16, 255]);
    assert_eq!(&out[4..8], &[255, 255, 255, 255]);
    assert_eq!(&out[8..16], &[16, 16, 16, 255, 16, 16, 16, 255]);
}

#[test]
fn state_hash_tells_states_apart() {
    let a = sim_with(6, 6, &[(1, 1)]);
    let b = sim_with(6, 6, &[(1, 1)]);
    let c = sim_with(6, 6, &[(2, 1)]);
    assert_eq!(a.state_hash(), b.state_hash());
    assert_ne!(a.state_hash(), c.state_hash());
}

#[test]
fn oscillator_period_limits() {
    let h = LifeStateHash(99);
    let other = LifeStateHash(5);
    assert_eq!(detect_oscillator_period(&[], 10, h), None);
    assert_eq!(detect_oscillator_period(&[(3, other)], 10, h), None);
    assert_eq!(detect_oscillator_period(&[(2, h), (8, h)], 10, h), Some(2));
    assert_eq!(detect_oscillator_period(&[(10, h)], 10, h), None);
    assert_eq!(detect_oscillator_period(&[(68, h)], 100, h), Some(32));
    assert_eq!(detect_oscillator_period(&[(67, h)], 100, h), None);
}

#[test]
fn shape_is_found_in_any_orientation_and_place() {
    let vertical = vec![(7, 3), (7, 4), (7, 5)];
    let d = classify_component(&vertical).expect("blinker");
    assert_eq!(d.pattern, KnownPattern::Blinker);
    assert_eq!((d.x, d.y, d.width, d.height), (7, 3, 1, 3));

    // A glider flipped and rotated, away from the origin.
    let glider = vec![(10, 20), (10, 21), (10, 22), (11, 20), (12, 21)];
    let g = classify_component(&glider).expect("glider");
    assert_eq!(g.pattern, KnownPattern::Glider);
    assert_eq!((g.x, g.y, g.width, g.height), (10, 20, 3, 3));

    assert!(classify_component(&vec![(0, 0), (5, 5)]).is_none());
    assert!(classify_component(&vec![(3, 3), (4, 3), (4, 3), (5, 3)]).is_none());
    assert!(classify_component(&vec![(3, 3), (4, 3), (5, 3), (5, 3)]).is_none());
    assert!(classify_component(&vec![]).is_none());
}

#[test]
fn detections_report_positions() {
    let sim = sim_with(20, 20, &[(2, 2), (3, 2), (2, 3), (3, 3), (10, 10), (11, 10), (12, 10)]);
    let report = sim.detect_known_patterns(&[], 0);
    let found: Vec<_> = report
        .detections
        .iter()
        .map(|d| (d.pattern, d.x, d.y, d.width, d.height))
        .collect();
    assert!(found.contains(&(KnownPattern::Block, 2, 2, 2, 2)));
    assert!(found.contains(&(KnownPattern::Blinker, 10, 10, 3, 1)));
    assert_eq!(found.len(), 2);
}

#[test]
fn classify_cuts_offsets_to_32_bits() {
    let far = vec![(0, 0), (1, 0), (4_294_967_298, 0)];
    let d = classify_component(&far).expect("blinker once offsets are cut to 32 bits");
    assert_eq!(d.pattern, KnownPattern::Blinker);
    assert_eq!((d.x, d.y, d.width, d.height), (0, 0, 4_294_967_299, 1));
    // Offsets 0 and 2^32 coincide once cut, so the group repeats a point.
    let clash = vec![(5, 5), (6, 5), (4_294_967_301, 5)];
    assert!(classify_component(&clash).is_none());
}

#[test]
fn grid_live_points_match_the_read_back_pattern() {
    let sim = sim_with(12, 9, &[(3, 2), (5, 2), (4, 4), (3, 5)]);
    let points = sim.live_points();
    let x0 = points.iter().map(|p| p.0).min().unwrap();
    let y0 = points.iter().map(|p| p.1).min().unwrap();
    let back = LifeRlePattern::parse(&sim.export_rle()).expect("valid");
    let shifted: Vec<(usize, usize)> = points.iter().map(|&(x, y)| (x - x0, y - y0)).collect();
    assert_eq!(back.cells, shifted);
    assert_eq!((back.width, back.height), (3, 4));
}

#[test]
fn turned_toad_is_a_toad_not_a_beehive() {
    let toad = vec![(30, 41), (30, 42), (30, 43), (31, 40), (31, 41), (31, 42)];
    let d = classify_component(&toad).expect("toad");
    assert_eq!(d.pattern, KnownPattern::Toad);
    assert_eq!((d.x, d.y, d.width, d.height), (30, 40, 2, 4));
    let beehive = vec![(6, 5), (5, 6), (7, 6), (5, 7), (7, 7), (6, 8)];
    assert_eq!(classify_component(&beehive).expect("beehive").pattern, KnownPattern::Beehive);
}

#[test]
fn rle_error_messages() {
    assert_eq!(RleError::EmptyBody.message(), "RLE body is empty");
    assert_eq!(
        RleError::UnsupportedToken('?').message(),
        "unsupported RLE token: ?"
    );
}

#[test]
fn rle_fit_check() {
    assert!(rle_text_fits("x = 3, y = 1\n3o!"));
    assert!(rle_text_fits(""));
    assert!(rle_text_fits("bo?99999999999999999999999o!"));
    assert!(!rle_text_fits("99999999999999999999999o!"));
    assert!(!rle_text_fits("x = 1, y = 1\n18446744073709551615b2o!"));
}

#[test]
fn frame_ticks() {
    assert_eq!(frame_tick(false, 0, true, 5, 3), FrameAction::Idle);
    assert_eq!(
        frame_tick(true, 16_000_000, false, 5, 3),
        FrameAction::Wait(50_000_000)
    );
    assert_eq!(
        frame_tick(true, FRAME_INTERVAL_NANOS, true, 8, 3),
        FrameAction::GpuSteps {
            steps: 3,
            cpu_step: true,
            step_count: 11
        }
    );
    assert_eq!(
        frame_tick(true, 90_000_000, true, 9, 2),
        FrameAction::GpuSteps {
            steps: 2,
            cpu_step: false,
            step_count: 11
        }
    );
    assert_eq!(frame_tick(true, 90_000_000, false, 9, 4), FrameAction::CpuSteps(4));
}

#[test]
fn bit_grid_keeps_length_and_last_write() {
    let mut grid = BitGrid::new(100);
    grid.set(40, true);
    grid.fill(true);
    grid.set(7, false);
    grid.set(99, false);
    grid.set(8, true);
    assert_eq!(grid.len(), 100);
    assert!(!grid.get(7));
    assert!(!grid.get(99));
    assert!(grid.get(40));
}
