use peter_math::simulation::life::{
    detect_oscillator_period, KnownPattern, LifeRlePattern, LifeSim, LifeStateHash,
    PatternDetectionReport,
};

fn sim_from_rle(rle: &str) -> LifeSim {
    let pattern = LifeRlePattern::parse(rle).expect("valid RLE");
    let mut sim = LifeSim::new(24, 24, 1);
    sim.apply_rle_centered(&pattern);
    sim
}

fn assert_detects(rle: &str, expected: KnownPattern) {
    let sim = sim_from_rle(rle);
    let report = sim.detect_known_patterns(&[], 0);
    assert!(
        report
            .detections
            .iter()
            .any(|detection| detection.pattern == expected),
        "expected {expected:?}, got {:?}",
        report.detections
    );
}

/// Count, centroid and motion of the gliders in a report, as the app shows them.
fn glider_track(
    report: &PatternDetectionReport,
    previous: Option<(f32, f32)>,
) -> Option<(usize, Option<(f32, f32)>, Option<(f32, f32)>)> {
    let gliders: Vec<_> = report
        .detections
        .iter()
        .filter(|d| d.pattern == KnownPattern::Glider)
        .collect();
    if gliders.is_empty() {
        return None;
    }
    let mut sum_x = 0.0;
    let mut sum_y = 0.0;
    for d in &gliders {
        sum_x += d.x as f32 + d.width as f32 * 0.5;
        sum_y += d.y as f32 + d.height as f32 * 0.5;
    }
    let centroid = (sum_x / gliders.len() as f32, sum_y / gliders.len() as f32);
    let direction = previous.map(|p| (centroid.0 - p.0, centroid.1 - p.1));
    Some((gliders.len(), Some(centroid), direction))
}

#[test]
fn parses_standard_rle_body() {
    let pattern = LifeRlePattern::parse("#N Glider\nx = 3, y = 3, rule = B3/S23\nbob$2bo$3o!")
        .expect("valid glider RLE");
    assert_eq!(pattern.width, 3);
    assert_eq!(pattern.height, 3);
    assert_eq!(pattern.cells.len(), 5);
}

#[test]
fn exports_active_bounding_box_as_rle() {
    let mut sim = LifeSim::new(8, 8, 1);
    sim.clear();
    sim.set_cell(2, 2, true);
    sim.set_cell(3, 2, true);
    sim.set_cell(4, 2, true);
    let rle = sim.export_rle();
    assert!(rle.starts_with("x = 3, y = 1, rule = B3/S23"));
    assert!(rle.contains("3o!"));
}

#[test]
fn detects_still_life_patterns() {
    assert_detects("x = 2, y = 2\n2o$2o!", KnownPattern::Block);
    assert_detects("x = 4, y = 3\nb2o$o2bo$b2o!", KnownPattern::Beehive);
    assert_detects("x = 4, y = 4\nb2o$o2bo$bobo$2bo!", KnownPattern::Loaf);
}

#[test]
fn detects_oscillator_patterns() {
    assert_detects("x = 3, y = 1\n3o!", KnownPattern::Blinker);
    assert_detects("x = 4, y = 2\nb3o$3ob!", KnownPattern::Toad);
    assert_detects("x = 4, y = 4\n2o2b$2o2b$2b2o$2b2o!", KnownPattern::Beacon);
}

#[test]
fn detects_glider_and_direction() {
    let mut sim = sim_from_rle("x = 3, y = 3\nbob$2bo$3o!");
    let report = sim.detect_known_patterns(&[], 0);
    assert!(report
        .detections
        .iter()
        .any(|detection| detection.pattern == KnownPattern::Glider));
    let track = glider_track(&report, Some((9.0, 9.0))).expect("glider track");
    assert_eq!(track.0, 1);
    assert!(track.2.is_some());

    sim.step();
    sim.step();
    sim.step();
    sim.step();
    let history = vec![(0, LifeStateHash(1))];
    let moved = sim.detect_known_patterns(&history, 4);
    assert!(glider_track(&moved, track.1).and_then(|t| t.2).is_some());
}

#[test]
fn detects_oscillator_period_from_hash_history() {
    let mut sim = sim_from_rle("x = 3, y = 1\n3o!");
    let initial = sim.state_hash();
    sim.step();
    sim.step();
    let period = detect_oscillator_period(&[(0, initial)], 2, sim.state_hash());
    assert_eq!(period, Some(2));
}
