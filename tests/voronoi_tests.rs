use voronoi::codec::{deserialize_points, serialize_points};
use voronoi::config::{clamp_lp_milli, Config, VoronoiKind};
use voronoi::field::{
    axis_offsets, background, paint_field, raster_offsets, raster_to_logical, select_seed,
    slider_extent,
};
use voronoi::interaction::{Button, Interaction, Modifier};
use voronoi::point::{nearest_point_idx, Point, Rgb};
use voronoi::store::{DeserializeError, PointStore};

const RED: Rgb = Rgb { r: 255, g: 0, b: 0 };
const BLUE: Rgb = Rgb { r: 0, g: 0, b: 255 };
const GREEN: Rgb = Rgb { r: 0, g: 255, b: 0 };

fn pt(x: i32, y: i32, color: Rgb) -> Point {
    Point { pos: [x, y], color }
}

/// Score keys for a raster under the metric with exponent `p`: for each pixel in turn,
/// `|dx|^p + |dy|^p` against each seed, as the bits of a non-negative `f32`, which
/// order as the values do.
fn score_raster(width: u32, height: u32, seeds: &[Point], p: f32) -> Vec<u32> {
    raster_offsets(width, height, seeds)
        .into_iter()
        .map(|(dx, dy)| ((dx as f32).powf(p) + (dy as f32).powf(p)).to_bits())
        .collect()
}

fn raster_index(lx: i32, ly: i32, width: u32, height: u32) -> usize {
    let x = lx + (width / 2) as i32;
    let y = (height / 2) as i32 - ly;
    (y as u32 * width + x as u32) as usize
}

#[test]
fn nearest_on_empty_is_none() {
    assert_eq!(nearest_point_idx(&[], [3, 4]), None);
    let store = PointStore::new(Vec::new());
    assert_eq!(store.nearest([0, 0]), None);
}

#[test]
fn nearest_picks_closest() {
    let pts = vec![pt(100, 0, RED), pt(-50, 40, BLUE), pt(-60, -20, GREEN), pt(0, 90, RED)];
    assert_eq!(nearest_point_idx(&pts, [-45, 35]), Some(1));
    assert_eq!(nearest_point_idx(&pts, [90, 5]), Some(0));
    assert_eq!(nearest_point_idx(&pts, [0, 80]), Some(3));
}

#[test]
fn nearest_tie_goes_to_lowest_index() {
    let pts = vec![pt(0, 0, RED), pt(100, 0, BLUE), pt(50, 50, GREEN)];
    assert_eq!(nearest_point_idx(&pts, [50, 0]), Some(0));
    let pts = vec![pt(10, 10, RED), pt(10, 10, BLUE)];
    assert_eq!(nearest_point_idx(&pts, [0, 0]), Some(0));
}

#[test]
fn nearest_far_apart_coordinates() {
    let pts = vec![pt(i32::MIN, i32::MIN, RED), pt(i32::MAX, i32::MAX, BLUE)];
    assert_eq!(nearest_point_idx(&pts, [i32::MAX, 0]), Some(1));
    assert_eq!(nearest_point_idx(&pts, [i32::MIN, 0]), Some(0));
}

#[test]
fn two_seed_scenario_nearest() {
    let seeds = vec![pt(0, 0, RED), pt(100, 0, BLUE)];
    let colors: Vec<Rgb> = seeds.iter().map(|s| s.color).collect();
    let (w, h) = (200u32, 200u32);
    let scores = score_raster(w, h, &seeds, 2.0);
    let field = paint_field(&scores, &colors, (w * h) as usize, VoronoiKind::Near);
    assert_eq!(field.len(), 40000);
    assert_eq!(field[raster_index(40, 0, w, h)], RED);
    assert_eq!(field[raster_index(60, 0, w, h)], BLUE);
    assert_eq!(field[raster_index(50, 0, w, h)], RED);
}

#[test]
fn two_seed_scenario_farthest() {
    let seeds = vec![pt(0, 0, RED), pt(100, 0, BLUE)];
    let colors: Vec<Rgb> = seeds.iter().map(|s| s.color).collect();
    let (w, h) = (200u32, 200u32);
    let scores = score_raster(w, h, &seeds, 2.0);
    let field = paint_field(&scores, &colors, (w * h) as usize, VoronoiKind::Far);
    assert_eq!(field[raster_index(40, 0, w, h)], BLUE);
    assert_eq!(field[raster_index(60, 0, w, h)], RED);
    assert_eq!(field[raster_index(50, 0, w, h)], RED);
    // A pixel exactly on a seed never selects that seed as the farthest.
    assert_eq!(field[raster_index(0, 0, w, h)], BLUE);
}

#[test]
fn manhattan_metric_field() {
    let seeds = vec![pt(0, 0, RED), pt(10, 10, BLUE)];
    let colors: Vec<Rgb> = seeds.iter().map(|s| s.color).collect();
    let (w, h) = (40u32, 40u32);
    let scores = score_raster(w, h, &seeds, 1.0);
    let field = paint_field(&scores, &colors, (w * h) as usize, VoronoiKind::Near);
    // |4|+|4| = 8 against |6|+|6| = 12.
    assert_eq!(field[raster_index(4, 4, w, h)], RED);
    // |10|+|0| = 10 against |0|+|10| = 10: a tie, the lower index wins.
    assert_eq!(field[raster_index(10, 0, w, h)], RED);
    assert_eq!(field[raster_index(9, 8, w, h)], BLUE);
}

#[test]
fn empty_seeds_paint_background() {
    let field = paint_field(&Vec::new(), &Vec::new(), 12, VoronoiKind::Near);
    assert_eq!(field.len(), 12);
    assert!(field.iter().all(|c| *c == Rgb { r: 128, g: 0, b: 128 }));
    assert_eq!(background(), Rgb { r: 128, g: 0, b: 128 });
}

#[test]
fn raster_offsets_layout() {
    let seeds = vec![pt(0, 0, RED), pt(-3, 2, BLUE)];
    let offs = raster_offsets(4, 2, &seeds);
    assert_eq!(offs.len(), 16);
    // Location (0, 0) is logical (-2, 1).
    assert_eq!(offs[0], (2, 1));
    assert_eq!(offs[1], (1, 1));
    // Location (3, 1) is logical (1, 0), the last location.
    assert_eq!(offs[14], (1, 0));
    assert_eq!(offs[15], (4, 2));
    for y in 0..2i32 {
        for x in 0..4i32 {
            let l = raster_to_logical(x, y, 4, 2).unwrap();
            let px = (y * 4 + x) as usize;
            for k in 0..2 {
                assert_eq!(offs[px * 2 + k], axis_offsets(l, seeds[k].pos));
            }
        }
    }
    assert!(raster_offsets(5, 5, &[]).is_empty());
}

#[test]
fn select_seed_cases() {
    assert_eq!(select_seed(&[], VoronoiKind::Near), None);
    assert_eq!(select_seed(&[], VoronoiKind::Far), None);
    assert_eq!(select_seed(&[5, 3, 9, 3], VoronoiKind::Near), Some(1));
    assert_eq!(select_seed(&[5, 3, 9, 9], VoronoiKind::Far), Some(2));
    assert_eq!(select_seed(&[7, 7, 7], VoronoiKind::Far), Some(0));
    assert_eq!(select_seed(&[u32::MAX, 0], VoronoiKind::Near), Some(1));
}

#[test]
fn raster_to_logical_centers_and_flips() {
    assert_eq!(raster_to_logical(0, 0, 200, 100), Some([-100, 50]));
    assert_eq!(raster_to_logical(100, 50, 200, 100), Some([0, 0]));
    assert_eq!(raster_to_logical(199, 99, 200, 100), Some([99, -49]));
    assert_eq!(raster_to_logical(3, 4, 7, 9), Some([0, 0]));
    assert_eq!(raster_to_logical(i32::MIN, 0, 200, 100), None);
    assert_eq!(raster_to_logical(0, i32::MIN, 200, 100), None);
}

#[test]
fn offsets_are_symmetric() {
    assert_eq!(axis_offsets([3, -4], [-2, 6]), (5, 10));
    assert_eq!(axis_offsets([-2, 6], [3, -4]), (5, 10));
    assert_eq!(axis_offsets([i32::MIN, i32::MAX], [i32::MAX, i32::MIN]), (u32::MAX, u32::MAX));
    assert_eq!(axis_offsets([7, 7], [7, 7]), (0, 0));
}

#[test]
fn slider_extent_is_half_smaller_dimension() {
    assert_eq!(slider_extent(800, 600), 300);
    assert_eq!(slider_extent(301, 900), 150);
    assert_eq!(slider_extent(0, 10), 0);
    assert_eq!(slider_extent(u32::MAX, u32::MAX), i32::MAX);
}

#[test]
fn lp_is_clamped() {
    assert_eq!(clamp_lp_milli(400), 500);
    assert_eq!(clamp_lp_milli(15000), 10000);
    assert_eq!(clamp_lp_milli(750), 750);
    assert_eq!(clamp_lp_milli(500), 500);
    assert_eq!(clamp_lp_milli(10000), 10000);
    assert_eq!(clamp_lp_milli(i64::MIN), 500);
    let mut config = Config::default();
    config.set_lp_milli(400);
    assert_eq!(config.lp_milli, 500);
    config.set_lp_milli(15000);
    assert_eq!(config.lp_milli, 10000);
    assert_eq!(config.voronoi_kind, VoronoiKind::Near);
}

#[test]
fn config_defaults() {
    let config = Config::default();
    assert_eq!(config.lp_milli, 2000);
    assert_eq!(config.voronoi_kind, VoronoiKind::Near);
    assert_eq!(VoronoiKind::default(), VoronoiKind::Near);
    let mut config = config;
    config.set_voronoi_kind(VoronoiKind::Far);
    assert_eq!(config.voronoi_kind, VoronoiKind::Far);
    assert_eq!(config.lp_milli, 2000);
}

#[test]
fn store_add_remove_move() {
    let mut store = PointStore::new(vec![pt(1, 2, RED)]);
    let i = store.add([5, 6]);
    assert_eq!(i, 1);
    assert_eq!(store.len(), 2);
    assert_eq!(store.points[1].pos, [5, 6]);
    assert_eq!(store.points[0], pt(1, 2, RED));

    store.move_to(0, [-7, 8]);
    assert_eq!(store.points[0], pt(-7, 8, RED));
    store.move_to(9, [0, 0]);
    assert_eq!(store.len(), 2);

    store.remove(5);
    assert_eq!(store.len(), 2);
    store.remove(0);
    assert_eq!(store.len(), 1);
    assert_eq!(store.points[0].pos, [5, 6]);
}

#[test]
fn recoloring_keeps_positions() {
    let mut store = PointStore::new(vec![pt(1, 2, RED), pt(3, 4, BLUE), pt(5, 6, GREEN)]);
    store.set_random_color(1);
    assert_eq!(store.points[0], pt(1, 2, RED));
    assert_eq!(store.points[1].pos, [3, 4]);
    assert_eq!(store.points[2], pt(5, 6, GREEN));
    store.randomize_all_colors();
    let positions: Vec<[i32; 2]> = store.points.iter().map(|p| p.pos).collect();
    assert_eq!(positions, vec![[1, 2], [3, 4], [5, 6]]);

    let mut p = Point::new([9, -9]);
    assert_eq!(p.pos, [9, -9]);
    p.set_random_color();
    assert_eq!(p.pos_i32_tuple(), (9, -9));
}

#[test]
fn ctrl_press_on_empty_store_adds_and_drags() {
    let mut store = PointStore::new(Vec::new());
    let mut ui = Interaction::new();
    ui.press(&mut store, [10, 20], Button::Primary, Modifier::Ctrl, false);
    assert_eq!(store.len(), 1);
    assert_eq!(store.points[0].pos, [10, 20]);
    assert_eq!(ui.dragging, Some(0));
}

#[test]
fn plain_press_drags_nearest_and_moves_it() {
    let mut store = PointStore::new(vec![pt(0, 0, RED), pt(100, 0, BLUE)]);
    let mut ui = Interaction::new();
    ui.press(&mut store, [90, 3], Button::Primary, Modifier::Plain, false);
    assert_eq!(ui.dragging, Some(1));
    ui.drag_to(&mut store, [70, -30], false);
    assert_eq!(store.points[1], pt(70, -30, BLUE));
    assert_eq!(store.points[0], pt(0, 0, RED));
    ui.drag_to(&mut store, [1, 1], true);
    assert_eq!(store.points[1], pt(70, -30, BLUE));
    ui.release(false);
    assert_eq!(ui.dragging, None);
    ui.drag_to(&mut store, [5, 5], false);
    assert_eq!(store.points[1], pt(70, -30, BLUE));
}

#[test]
fn plain_press_on_empty_store_drags_nothing() {
    let mut store = PointStore::new(Vec::new());
    let mut ui = Interaction::new();
    ui.press(&mut store, [1, 1], Button::Primary, Modifier::Plain, false);
    assert_eq!(ui.dragging, None);
    assert_eq!(store.len(), 0);
}

#[test]
fn secondary_press_removes_nearest() {
    let mut store = PointStore::new(vec![pt(0, 0, RED), pt(100, 0, BLUE), pt(0, 100, GREEN)]);
    let mut ui = Interaction::new();
    ui.press(&mut store, [95, 5], Button::Primary, Modifier::Plain, false);
    assert_eq!(ui.dragging, Some(1));
    ui.press(&mut store, [95, 5], Button::Secondary, Modifier::Plain, false);
    assert_eq!(ui.dragging, None);
    assert_eq!(store.points, vec![pt(0, 0, RED), pt(0, 100, GREEN)]);
    ui.press(&mut store, [95, 5], Button::Secondary, Modifier::Shift, false);
    assert_eq!(store.len(), 2);
}

#[test]
fn shift_press_recolors_nearest_only() {
    let mut store = PointStore::new(vec![pt(0, 0, RED), pt(100, 0, BLUE)]);
    let mut ui = Interaction::new();
    ui.press(&mut store, [90, 0], Button::Primary, Modifier::Shift, false);
    assert_eq!(ui.dragging, None);
    assert_eq!(store.points[0], pt(0, 0, RED));
    assert_eq!(store.points[1].pos, [100, 0]);
}

#[test]
fn captured_pointer_changes_nothing() {
    let mut store = PointStore::new(vec![pt(0, 0, RED)]);
    let mut ui = Interaction::new();
    ui.press(&mut store, [5, 5], Button::Primary, Modifier::Ctrl, true);
    ui.press(&mut store, [5, 5], Button::Secondary, Modifier::Plain, true);
    assert_eq!(store.points, vec![pt(0, 0, RED)]);
    assert_eq!(ui.dragging, None);
    ui.press(&mut store, [5, 5], Button::Primary, Modifier::Plain, false);
    ui.release(true);
    assert_eq!(ui.dragging, Some(0));
}

#[test]
fn malformed_import_keeps_store() {
    let original = vec![pt(1, 1, RED), pt(2, 2, BLUE), pt(3, 3, GREEN)];
    let mut store = PointStore::new(original.clone());
    let r = store.import_text(b"[{\"pos\": [1, oops");
    assert!(matches!(r, Err(DeserializeError { .. })));
    assert_eq!(store.points, original);
    let r = store.import_text(b"");
    assert!(r.is_err());
    let r = store.import_text(b"[{\"pos\":[1,2],\"color\":[1.0000,0.0000,0.5020]}");
    assert!(r.is_err());
    assert_eq!(store.points, original);
}

#[test]
fn failed_read_keeps_store() {
    let original = vec![pt(1, 1, RED), pt(2, 2, BLUE), pt(3, 3, GREEN)];
    let mut store = PointStore::new(original.clone());
    let err = DeserializeError { message: String::from("bad") };
    let r = store.import(Err(err.clone()));
    assert_eq!(r, Err(err));
    assert_eq!(store.points, original);
}

#[test]
fn serialized_text_is_exact() {
    let pts = vec![pt(-12, 5, Rgb { r: 255, g: 0, b: 128 })];
    let text = serialize_points(&pts);
    assert_eq!(
        String::from_utf8(text).unwrap(),
        "[{\"pos\":[-12,5],\"color\":[1.0000,0.0000,0.5020]}]"
    );
    assert_eq!(serialize_points(&[]), b"[]".to_vec());
    let two = serialize_points(&[pt(0, 0, RED), pt(100, 0, BLUE)]);
    assert_eq!(
        String::from_utf8(two).unwrap(),
        "[{\"pos\":[0,0],\"color\":[1.0000,0.0000,0.0000]},{\"pos\":[100,0],\"color\":[0.0000,0.0000,1.0000]}]"
    );
}

#[test]
fn serialized_text_is_json() {
    let pts = vec![pt(-12, 5, Rgb { r: 1, g: 2, b: 3 }), pt(i32::MIN, i32::MAX, GREEN)];
    let text = String::from_utf8(serialize_points(&pts)).unwrap();
    let value: serde_json::Value = serde_json::from_str(&text).unwrap();
    let list = value.as_array().unwrap();
    assert_eq!(list.len(), 2);
    assert_eq!(list[1]["pos"][0].as_i64(), Some(i32::MIN as i64));
    assert_eq!(list[1]["pos"][1].as_i64(), Some(i32::MAX as i64));
    let g = list[1]["color"][1].as_f64().unwrap();
    assert!((g - 1.0).abs() < 1e-9);
}

#[test]
fn round_trip_keeps_points() {
    let mut pts = Vec::new();
    for c in 0..=255u8 {
        let v = c as i32;
        pts.push(pt(v * 1000 - 77777, -v * 3, Rgb { r: c, g: 255 - c, b: c / 2 }));
    }
    pts.push(pt(i32::MIN, i32::MAX, BLUE));
    pts.push(pt(0, -1, RED));
    let text = serialize_points(&pts);
    assert_eq!(deserialize_points(&text), Ok(pts.clone()));
    assert_eq!(deserialize_points(b"[]"), Ok(Vec::new()));

    let mut store = PointStore::new(pts.clone());
    let exported = store.export_text();
    let mut other = PointStore::new(vec![pt(5, 5, GREEN)]);
    assert_eq!(other.import_text(&exported), Ok(()));
    assert_eq!(other.points, pts);
    store.remove(0);
    assert_eq!(store.len(), pts.len() - 1);
}

#[test]
fn unreadable_texts_are_refused() {
    assert!(deserialize_points(b"[{\"pos\":[1,2],\"color\":[1.0001,0.0000,0.5020]}]").is_err());
    assert!(deserialize_points(b"[{\"pos\":[2147483648,2],\"color\":[1,0,0]}]").is_err());
    assert!(deserialize_points(b"[{\"pos\":[1,2],\"color\":[1,0,0]}]x").is_err());
    assert!(deserialize_points(b"[{\"pos\":[1,2],\"color\":[1,0]}]").is_err());
    assert!(deserialize_points(b"[{\"color\":[1,0,0],\"pos\":[1,2]}]").is_err());
    assert!(deserialize_points(b"[{\"pos\":[1,2],\"color\":[2,0,0]}]").is_err());
    assert!(deserialize_points(b"[{\"pos\":[1,2],\"color\":[0.1234567891,0,0]}]").is_err());
    assert!(deserialize_points(b"{}").is_err());
}

#[test]
fn other_spellings_are_read() {
    // Whitespace anywhere, and channels as JSON writers spell them.
    let text = b"[ {\"pos\": [100, 0], \"color\": [0.9411765, 0.5019608, 0.0]},\n  {\"pos\":[-5,7],\"color\":[1,0.5,0]} ]";
    assert_eq!(
        deserialize_points(text),
        Ok(vec![pt(100, 0, Rgb { r: 240, g: 128, b: 0 }), pt(-5, 7, Rgb { r: 255, g: 128, b: 0 })])
    );
    assert_eq!(deserialize_points(b"[ ]"), Ok(Vec::new()));
    assert_eq!(deserialize_points(b" [\t]\r\n"), Ok(Vec::new()));
    assert_eq!(
        deserialize_points(b"[{\"pos\":[1,2],\"color\":[1.0,0.003921569,0.003]}]"),
        Ok(vec![pt(1, 2, Rgb { r: 255, g: 1, b: 1 })])
    );
    let pts = vec![pt(3, -4, Rgb { r: 9, g: 99, b: 199 })];
    let spaced: Vec<u8> = serialize_points(&pts)
        .into_iter()
        .flat_map(|c| vec![b' ', c])
        .collect();
    assert_eq!(deserialize_points(&spaced), Ok(pts.clone()));
    let mut store = PointStore::new(vec![pt(0, 0, RED)]);
    assert_eq!(store.import_text(b"[ {\"pos\" : [ 3 , -4 ] , \"color\" : [ 0.0353 , 0.3882 , 0.7804 ] } ]"), Ok(()));
    assert_eq!(store.points, pts);
}

fn is_vivid(c: Rgb) -> bool {
    let mn = c.r.min(c.g).min(c.b) as u32;
    let mx = c.r.max(c.g).max(c.b) as u32;
    100 * mn <= 45 * mx + 100
}

#[test]
fn random_colors_are_vivid() {
    for _ in 0..500 {
        assert!(is_vivid(Point::new([0, 0]).color));
    }
    let mut store = PointStore::new(vec![pt(1, 1, Rgb { r: 200, g: 200, b: 200 }); 20]);
    store.randomize_all_colors();
    assert!(store.points.iter().all(|p| is_vivid(p.color)));
    let mut one = PointStore::new(vec![pt(1, 1, Rgb { r: 200, g: 200, b: 200 }), pt(2, 2, GREEN)]);
    one.set_random_color(0);
    assert!(is_vivid(one.points[0].color));
    assert_eq!(one.points[1], pt(2, 2, GREEN));
}

#[test]
fn startup_uses_read_list_or_fallback() {
    let fallback = [[1, 2], [3, 4], [5, 6], [7, 8], [9, 10]];
    let store = PointStore::startup(Ok(vec![pt(0, 0, RED)]), fallback);
    assert_eq!(store.points, vec![pt(0, 0, RED)]);
    let store = PointStore::startup(deserialize_points(b"not a list"), fallback);
    assert_eq!(store.len(), 5);
    let positions: Vec<[i32; 2]> = store.points.iter().map(|p| p.pos).collect();
    assert_eq!(positions, fallback.to_vec());
    assert!(store.points.iter().all(|p| is_vivid(p.color)));
}

#[test]
fn successful_import_replaces_store() {
    let mut store = PointStore::new(vec![pt(1, 1, RED), pt(2, 2, BLUE)]);
    let r = store.import(Ok(vec![pt(9, 9, GREEN)]));
    assert_eq!(r, Ok(()));
    assert_eq!(store.points, vec![pt(9, 9, GREEN)]);
}
