use rain_landscapes::landscape::Landscape;
use rain_landscapes::landscape::Point;
use rain_landscapes::neighbors::neighbor_list;
use rain_landscapes::LandscapeError;
use rain_landscapes::MAX_GROUND_ABS;
use rain_landscapes::MAX_TOTAL_WATER;

fn waters_sum(grounds: &[i64], heights: &[i64]) -> i64 {
    let mut total = 0;
    for (g, h) in grounds.iter().zip(heights.iter()) {
        total += h - g;
    }
    total
}

#[test]
fn create_rejects_empty_landscape() {
    let r = Landscape::create(vec![], 1);
    assert!(matches!(r, Err(LandscapeError::EmptyLandscape)));
}

#[test]
fn create_rejects_non_positive_precision() {
    let r = Landscape::create(vec![100, 200], 0);
    assert!(matches!(r, Err(LandscapeError::InvalidPrecision)));
    let r = Landscape::create(vec![100, 200], -5);
    assert!(matches!(r, Err(LandscapeError::InvalidPrecision)));
}

#[test]
fn create_rejects_ground_out_of_range() {
    let r = Landscape::create(vec![0, MAX_GROUND_ABS + 1], 1);
    assert!(matches!(r, Err(LandscapeError::GroundOutOfRange)));
    let r = Landscape::create(vec![-(MAX_GROUND_ABS + 1)], 1);
    assert!(matches!(r, Err(LandscapeError::GroundOutOfRange)));
}

#[test]
fn create_accepts_negative_terrain() {
    let l = Landscape::create(vec![-300, -100], 1).unwrap();
    assert_eq!(l.precision(), 1);
}

#[test]
fn precision_reports_configured_tolerance() {
    let l = Landscape::create(vec![100], 25).unwrap();
    assert_eq!(l.precision(), 25);
}

#[test]
fn neighbor_rule_at_boundaries() {
    // A single point has no neighbors at all.
    assert_eq!(neighbor_list(0, 1), Vec::<usize>::new());
    // Point 0 is paired with point 1 when the landscape is larger.
    assert_eq!(neighbor_list(0, 2), vec![1]);
    assert_eq!(neighbor_list(0, 3), vec![1]);
    // Interior points see both sides; the right edge only its left.
    assert_eq!(neighbor_list(1, 3), vec![0, 2]);
    assert_eq!(neighbor_list(2, 3), vec![1]);
}

#[test]
fn single_point_never_flows() {
    let mut l = Landscape::create(vec![500], 1).unwrap();
    let heights = l.rain_uniform(100, true).unwrap();
    // All rainfall stays on the one point: no neighbor exists to take it.
    assert_eq!(heights, vec![600]);
    let heights = l.rain_uniform(250, true).unwrap();
    assert_eq!(heights, vec![850]);
}

#[test]
fn rain_uniform_without_result_returns_empty() {
    let mut l = Landscape::create(vec![300, 100, 100], 1).unwrap();
    let heights = l.rain_uniform(100, false).unwrap();
    assert_eq!(heights, Vec::<i64>::new());
}

#[test]
fn peak_drains_toward_low_ground() {
    // Heights 3.0, 1.0, 1.0 in hundredths, tolerance 0.01, one unit of rain.
    let mut l = Landscape::create(vec![300, 100, 100], 1).unwrap();
    let heights = l.rain_uniform(100, true).unwrap();
    assert_eq!(heights.len(), 3);
    // Mass conservation: three units of water, nowhere to leave.
    assert_eq!(waters_sum(&[300, 100, 100], &heights), 300);
    // The two low points end up level within the tolerance.
    assert!((heights[1] - heights[2]).abs() <= 1);
    // The peak keeps at most a negligible film of water.
    assert!(heights[0] - 300 <= 1);
    // No water dropped below its own ground.
    assert!(heights.iter().zip([300, 100, 100].iter()).all(|(h, g)| h >= g));
}

#[test]
fn ridge_splits_water_evenly() {
    // A tolerance so coarse that stabilization takes exactly one pass:
    // the ridge sends half of its moving water to each side.
    let mut l = Landscape::create(vec![100, 500, 100], 90).unwrap();
    let heights = l.rain_uniform(100, true).unwrap();
    assert_eq!(heights, vec![250, 500, 250]);
}

#[test]
fn ridge_with_fine_tolerance_stays_symmetric() {
    let mut l = Landscape::create(vec![100, 500, 100], 1).unwrap();
    let heights = l.rain_uniform(100, true).unwrap();
    assert_eq!(waters_sum(&[100, 500, 100], &heights), 300);
    // The two downhill candidates receive the same share every pass,
    // so the final state is exactly symmetric.
    assert_eq!(heights[0], heights[2]);
    // The ridge itself drains down to a negligible film.
    assert!(heights[1] - 500 <= 1);
}

#[test]
fn stabilizing_a_stable_landscape_changes_nothing() {
    let mut l = Landscape::create(vec![300, 100, 100], 1).unwrap();
    let first = l.rain_uniform(100, true).unwrap();
    // Raining nothing re-runs stabilization on an already-stable state.
    let second = l.rain_uniform(0, true).unwrap();
    assert_eq!(first, second);
    assert!(l.stabilize_water().is_ok());
    let third = l.rain_uniform(0, true).unwrap();
    assert_eq!(first, third);
}

#[test]
fn rain_with_distribution_per_point() {
    let mut l = Landscape::create(vec![0, 0], 1).unwrap();
    let heights = l.rain(|i| if i == 0 { 100 } else { 0 }, true).unwrap();
    // One unit on the first point equalizes across the pair.
    assert_eq!(heights, vec![50, 50]);
}

#[test]
fn too_much_water_is_rejected_and_state_kept() {
    let mut l = Landscape::create(vec![100, 200], 1).unwrap();
    let before = l.rain_uniform(0, true).unwrap();
    let r = l.rain_uniform(MAX_TOTAL_WATER, true);
    assert!(matches!(r, Err(LandscapeError::TooMuchWater)));
    let after = l.rain_uniform(0, true).unwrap();
    assert_eq!(before, after);
}

#[test]
fn point_accumulates_rain() {
    let mut p = Point::with_height(42);
    assert_eq!(p.get_height(), 42);
    p.rain(8);
    assert_eq!(p.get_height(), 50);
    p.rain(0);
    assert_eq!(p.get_height(), 50);
}

#[test]
fn half_difference_cap_prevents_oscillation() {
    // A step: the cliff sends at most half the height difference per pass,
    // so the pair settles exactly level instead of see-sawing.
    let mut l = Landscape::create(vec![200, 0], 1).unwrap();
    let heights = l.rain_uniform(100, true).unwrap();
    assert_eq!(heights, vec![200, 200]);
}

#[test]
fn total_water_tracks_rainfall() {
    let mut l = Landscape::create(vec![300, 400], 1).unwrap();
    assert_eq!(l.total_water(), 0);
    l.rain_uniform(500, false).unwrap();
    assert_eq!(l.total_water(), 1000);
    l.rain_uniform(25, false).unwrap();
    assert_eq!(l.total_water(), 1050);
}

#[test]
fn diagnostic_potential_exact_values() {
    let mut l = Landscape::create(vec![3, 4], 1).unwrap();
    assert_eq!(l.calc_state(), 25);
    assert_eq!(l.calc_state_lbound(), 25);
    l.rain_uniform(5, false).unwrap();
    // Waters 5 and 5 stay put: heights 8 and 9 differ by no more than the
    // tolerance, so the potential is 64 + 81.
    assert_eq!(l.calc_state(), 145);
    assert_eq!(l.calc_state_lbound(), 25);
}

#[test]
fn diagnostics_find_no_violation_on_a_healthy_run() {
    let mut l = Landscape::create(vec![100, 500, 100], 1).unwrap();
    l.set_diagnostics(true);
    l.rain_uniform(100, false).unwrap();
    l.rain_uniform(300, false).unwrap();
    assert_eq!(l.diagnostic_failures(), 0);
}

#[test]
fn potential_never_rises_across_steps() {
    let mut l = Landscape::create(vec![700, 100, 300, 200], 1).unwrap();
    l.rain_uniform(400, false).unwrap();
    let mut prev = l.calc_state();
    for _ in 0..5 {
        // Raining nothing cannot raise the potential: the state is stable.
        l.rain_uniform(0, false).unwrap();
        let cur = l.calc_state();
        assert!(cur <= prev);
        assert!(cur >= l.calc_state_lbound());
        prev = cur;
    }
}
