use pathing::direction::Direction;
use pathing::field::{classify_distance, glow_intensity, smooth_min, CellType, CellTypeMap, Path, BLEND_WIDTH, FALLOFF_LIMITS};
use pathing::geometry::{dist, find_closest_point_on_line_segment, find_closest_point_to_line, find_line_equation, RatPoint};
use pathing::graph::{create_configuration, Configuration};
use pathing::input::{key_press_action, mouse_down_action, Action};

fn as_pair(p: RatPoint) -> (f64, f64) {
    (p.x as f64 / p.den as f64, p.y as f64 / p.den as f64)
}

fn closest(p1: (u16, u16), p2: (u16, u16), q: (u16, u16)) -> (f64, f64) {
    as_pair(find_closest_point_on_line_segment(p1, p2, find_line_equation(p1, p2), q))
}

#[test]
fn find_closest_point_to_line_segment_correct() {
    let p2 = (10, 10);
    let p1 = (0, 0);
    assert_eq!(
        as_pair(find_closest_point_on_line_segment(p1, p2, find_line_equation(p1, p2), (5, 8))),
        (6.5, 6.5)
    );
    let p2 = (10, 5);
    assert_eq!(
        as_pair(find_closest_point_on_line_segment((0, 0), p2, find_line_equation(p1, p2), (50, 8))),
        (10., 5.)
    );
}

#[test]
fn line_equation_passes_through_both_points() {
    let l = find_line_equation((2, 3), (6, 11));
    assert_eq!((l.rise, l.run), (-8, -4));
    assert_eq!(l.run * 3, l.rise * 2 + l.intercept);
    assert_eq!(l.run * 11, l.rise * 6 + l.intercept);
}

#[test]
fn projection_onto_diagonal_line_is_exact() {
    let p = find_closest_point_to_line((0, 0), (10, 10), find_line_equation((0, 0), (10, 10)), (5, 8));
    assert_eq!(p, RatPoint { x: 1300, y: 1300, den: 200 });
    let beyond = find_closest_point_to_line((0, 0), (10, 5), find_line_equation((0, 0), (10, 5)), (50, 8));
    assert!(as_pair(beyond).0 > 10.0);
}

#[test]
fn projection_onto_vertical_and_horizontal_lines() {
    let v = find_closest_point_to_line((3, 2), (3, 9), find_line_equation((3, 2), (3, 9)), (7, 12));
    assert_eq!(as_pair(v), (3.0, 12.0));
    let h = find_closest_point_to_line((2, 4), (8, 4), find_line_equation((2, 4), (8, 4)), (10, 0));
    assert_eq!(as_pair(h), (10.0, 4.0));
}

#[test]
fn vertical_segment_clamps_rows() {
    assert_eq!(closest((3, 2), (3, 9), (7, 12)), (3.0, 9.0));
    assert_eq!(closest((3, 9), (3, 2), (0, 5)), (3.0, 5.0));
    assert_eq!(closest((3, 2), (3, 9), (1, 0)), (3.0, 2.0));
}

#[test]
fn horizontal_segment_clamps_columns() {
    assert_eq!(closest((2, 4), (8, 4), (10, 0)), (8.0, 4.0));
    assert_eq!(closest((8, 4), (2, 4), (5, 9)), (5.0, 4.0));
    assert_eq!(closest((2, 4), (8, 4), (0, 1)), (2.0, 4.0));
}

#[test]
fn coincident_endpoints_give_the_endpoint() {
    assert_eq!(closest((4, 4), (4, 4), (9, 1)), (4.0, 4.0));
}

#[test]
fn distance_scales_columns_and_rows() {
    let origin = RatPoint { x: 0, y: 0, den: 1 };
    assert_eq!(dist(origin, (8, 0)), 5000);
    assert_eq!(dist(origin, (0, 5)), 8000);
    assert_eq!(dist(origin, (3, 4)), 6669);
    assert_eq!(dist(RatPoint { x: 13, y: 13, den: 2 }, (6, 6)), 858);
    assert_eq!(dist(origin, (0, 0)), 0);
}

#[test]
fn smooth_min_blends_close_values() {
    assert_eq!(smooth_min(0, 0, BLEND_WIDTH), -2250);
    assert_eq!(smooth_min(1000, 4000, BLEND_WIDTH), 0);
    assert_eq!(smooth_min(0, 20000, BLEND_WIDTH), 0);
    assert_eq!(smooth_min(5, 7, 1), 5);
}

#[test]
fn smooth_min_is_symmetric() {
    for (a, b) in [(0, 0), (1000, 4000), (3500, 3600), (0, 20000), (12345, 6789)] {
        assert_eq!(smooth_min(a, b, BLEND_WIDTH), smooth_min(b, a, BLEND_WIDTH));
    }
}

#[test]
fn smooth_min_approaches_min_as_width_shrinks() {
    let (a, b) = (3000, 3400);
    let mut last_gap = i64::MAX;
    for k in [9000, 1000, 100, 10, 1] {
        let gap = a.min(b) - smooth_min(a, b, k);
        assert!(gap >= 0);
        assert!(gap <= last_gap);
        last_gap = gap;
    }
    assert_eq!(last_gap, 0);
}

#[test]
fn glow_intensity_matches_logistic_falloff() {
    for c in -3000i64..12000 {
        let expected = (255.0 / (1.0 + ((c as f64) / 1000.0 - 4.0).exp())).round() as u8;
        assert_eq!(glow_intensity(c), expected, "distance {}", c);
    }
    assert_eq!(glow_intensity(4000), 128);
    assert_eq!(glow_intensity(FALLOFF_LIMITS[0] + 1), 0);
}

#[test]
fn combined_distance_zero_is_on_path() {
    assert_eq!(classify_distance(0), CellType::OnPath);
    assert_eq!(classify_distance(2000), CellType::OnPath);
    assert_eq!(classify_distance(2001), CellType::Glow(225));
    assert_eq!(classify_distance(4800), CellType::Glow(79));
}

#[test]
fn very_large_distance_glows_with_zero_intensity() {
    assert_eq!(classify_distance(50_000), CellType::Glow(0));
    assert_eq!(classify_distance(i64::MAX), CellType::Glow(0));
}

#[test]
fn add_node_builds_complete_graph() {
    let mut config = Configuration::new((20, 10));
    config.add_node_with_paths((1, 1));
    assert_eq!(config.paths.len(), 0);
    config.add_node_with_paths((5, 5));
    assert_eq!(config.paths.len(), 1);
    assert_eq!(config.paths[0].nodes, vec![(5, 5), (1, 1)]);
    config.add_node_with_paths((9, 2));
    assert_eq!(config.paths.len(), 3);
    assert_eq!(config.paths[1].nodes, vec![(9, 2), (1, 1)]);
    assert_eq!(config.paths[2].nodes, vec![(9, 2), (5, 5)]);
    assert_eq!(config.nodes, vec![(1, 1), (5, 5), (9, 2)]);
}

#[test]
fn add_node_marks_its_cell() {
    let mut config = Configuration::new((20, 10));
    assert!(config.map.map.iter().all(|c| *c == CellType::Background));
    assert_eq!(config.map.map.len(), 200);
    config.add_node_with_paths((7, 3));
    assert_eq!(config.map.map[3 * 20 + 7], CellType::NodeMarker);
    assert_eq!(config.map.map.iter().filter(|c| **c == CellType::NodeMarker).count(), 1);
}

#[test]
fn create_configuration_places_nodes_in_order() {
    let config = create_configuration(&vec![(0, 0), (4, 0), (4, 4), (0, 4)], (8, 8));
    assert_eq!(config.paths.len(), 6);
    assert_eq!(config.nodes.len(), 4);
}

#[test]
fn reset_keeps_markers_and_is_idempotent() {
    let mut config = Configuration::new((10, 5));
    config.add_node_with_paths((2, 2));
    config.add_node_with_paths((8, 1));
    config.add_path_cells();
    assert!(config.map.map.iter().any(|c| *c != CellType::Background && *c != CellType::NodeMarker));
    config.clean_map();
    let once = config.map.map.clone();
    for (i, c) in once.iter().enumerate() {
        if i == 2 * 10 + 2 || i == 10 + 8 {
            assert_eq!(*c, CellType::NodeMarker);
        } else {
            assert_eq!(*c, CellType::Background);
        }
    }
    config.clean_map();
    assert_eq!(config.map.map, once);
}

#[test]
fn render_is_repeatable() {
    let mut config = Configuration::new((30, 12));
    config.add_node_with_paths((2, 2));
    config.add_node_with_paths((25, 9));
    config.add_node_with_paths((4, 10));
    config.add_path_cells();
    let first = config.map.map.clone();
    config.add_path_cells();
    assert_eq!(config.map.map, first);
    config.clean_map();
    config.add_path_cells();
    assert_eq!(config.map.map, first);
}

#[test]
fn render_classifies_cells_near_one_segment() {
    let mut config = Configuration::new((20, 10));
    config.add_node_with_paths((0, 0));
    config.add_node_with_paths((10, 0));
    config.add_path_cells();
    assert_eq!(config.map.map[0], CellType::NodeMarker);
    assert_eq!(config.map.map[10], CellType::NodeMarker);
    assert_eq!(config.map.map[5], CellType::OnPath);
    assert_eq!(config.map.map[20 + 5], CellType::OnPath);
    assert_eq!(config.map.map[3 * 20 + 5], CellType::Glow(79));
}

#[test]
fn render_without_segments_leaves_cells() {
    let mut config = Configuration::new((6, 4));
    config.add_node_with_paths((1, 1));
    config.add_path_cells();
    assert_eq!(config.map.map[6 + 1], CellType::NodeMarker);
    assert_eq!(config.map.map.iter().filter(|c| **c == CellType::Background).count(), 23);
}

#[test]
fn render_on_a_cell_map_directly() {
    let mut map = CellTypeMap::new(vec![CellType::Background; 12]);
    let paths = vec![Path { nodes: vec![(0, 1), (3, 1)] }, Path { nodes: vec![(0, 0), (0, 2)] }];
    map.render_path_cells(&paths, (4, 3));
    assert!(map.map.iter().all(|c| *c == CellType::OnPath));
}

#[test]
fn clicks_map_to_grid_cells() {
    assert_eq!(mouse_down_action(3, 20, (10, 8), 25), Action::AddPathNode(3, 3));
    assert_eq!(mouse_down_action(10, 20, (10, 8), 25), Action::Nothing);
    assert_eq!(mouse_down_action(3, 5, (10, 8), 25), Action::Nothing);
    assert_eq!(mouse_down_action(3, 24, (10, 8), 25), Action::Nothing);
    assert_eq!(mouse_down_action(3, 17, (10, 8), 25), Action::AddPathNode(3, 0));
}

#[test]
fn keys_map_to_actions() {
    assert_eq!(key_press_action('s', false), Action::Start);
    assert_eq!(key_press_action('c', true), Action::Exit);
    assert_eq!(key_press_action('c', false), Action::Nothing);
    assert_eq!(key_press_action('x', true), Action::Nothing);
}

#[test]
fn directions_are_unit_steps() {
    let all = Direction::directions();
    assert_eq!(all, vec![Direction::Up, Direction::Right, Direction::Down, Direction::Left]);
    let vectors: Vec<(i32, i32)> = all.iter().map(|d| d.get_vector()).collect();
    assert_eq!(vectors, vec![(0, -1), (1, 0), (0, 1), (-1, 0)]);
}
