use lean_graph::app_state::MApp;
use lean_graph::color::{recolor, ColoringSettings, LOSS_ONE};
use lean_graph::filter::{rebuild, write_back, FilterSettings};
use lean_graph::fixed::isqrt;
use lean_graph::graph::{ColorAcc, ConstCategory, Graph, NodeData, NodePayload, Rgb, Vec2};
use lean_graph::layout::{attraction, center_of_mass, repulsion, step, ForceSettings, SPEED_LIMIT};
use lean_graph::load::{build_graph, color_of_draws, disk_point, load_graph, mass_of, spawn_radius};
use lean_graph::topo::{reverse_adjacency, topo_order};
use lean_graph::Directed;

fn record(name: &str, refs: &[&str], cat: ConstCategory) -> NodeData {
    NodeData {
        name: name.to_string(),
        references: refs.iter().map(|r| r.to_string()).collect(),
        const_category: cat,
        const_type: String::new(),
    }
}

fn node(name: &str, x: i64, y: i64, color: Rgb) -> NodePayload {
    NodePayload {
        name: name.to_string(),
        pos: Vec2 { x, y },
        vel: Vec2 { x: 0, y: 0 },
        color,
        comp_color: ColorAcc { r: 0, g: 0, b: 0, w: 0 },
        const_category: ConstCategory::Theorem,
        size: 1024,
        const_type: String::new(),
        selected: false,
    }
}

fn grey() -> Rgb {
    Rgb { r: 100, g: 100, b: 100 }
}

fn show_all(max: usize) -> FilterSettings {
    FilterSettings { show_theorem: true, show_definition: true, show_axiom: true, show_other: true, outer_edge_cnt_filter: max }
}

fn build(records: &Vec<NodeData>) -> Graph {
    let colors = records.iter().map(|_| grey()).collect();
    let positions = (0..records.len()).map(|i| Vec2 { x: i as i64 * 1024, y: 0 }).collect();
    build_graph(records, &colors, &positions)
}

#[test]
fn edges_are_directed() {
    assert!(Directed::is_directed());
}

#[test]
fn integer_square_roots() {
    assert_eq!(isqrt(0), 0);
    assert_eq!(isqrt(15), 3);
    assert_eq!(isqrt(16), 4);
    assert_eq!(isqrt(u128::MAX), u64::MAX);
}

#[test]
fn mass_is_root_of_references_plus_one() {
    assert_eq!(mass_of(0), 1024);
    assert_eq!(mass_of(1), 1448);
    assert_eq!(mass_of(3), 2048);
}

#[test]
fn spawn_radius_grows_with_root_of_count() {
    assert_eq!(spawn_radius(0), 0);
    assert_eq!(spawn_radius(4), 2_048_000);
}

#[test]
fn colour_channels_stay_below_two_thirds() {
    let c = color_of_draws(0, u32::MAX, 1 << 31);
    assert_eq!(c, Rgb { r: 0, g: 43690, b: 21845 });
}

#[test]
fn disk_points_are_accepted_or_rejected() {
    assert_eq!(disk_point(100, 0, 0), None);
    assert_eq!(disk_point(100, 1 << 31, 1 << 31), Some(Vec2 { x: 0, y: 0 }));
}

#[test]
fn import_counts_nodes_and_resolved_references() {
    let records = vec![
        record("A", &["B", "Missing"], ConstCategory::Theorem),
        record("B", &[], ConstCategory::Axiom),
        record("C", &["A", "B"], ConstCategory::Definition),
    ];
    let g = build(&records);
    assert_eq!(g.nodes.len(), 3);
    assert!(g.nodes.iter().all(|n| n.is_some()));
    assert_eq!(g.edges, vec![(1, 0), (0, 2), (1, 2)]);
    assert_eq!(g.nodes[0].as_ref().unwrap().size, 1773);
}

#[test]
fn import_two_records_and_filter() {
    // Y refers to X, so the edge goes from X to Y: X has out-degree 1.
    let records = vec![record("X", &[], ConstCategory::Axiom), record("Y", &["X"], ConstCategory::Theorem)];
    let g = build(&records);
    assert_eq!(g.nodes.len(), 2);
    assert_eq!(g.edges, vec![(0, 1)]);
    assert_eq!(g.out_degrees(), vec![1, 0]);
    let v = rebuild(&g, &show_all(0));
    assert!(v.nodes[0].is_none());
    assert_eq!(v.nodes[1].as_ref().unwrap().name, "Y");
    assert!(v.edges.is_empty());
}

#[test]
fn loading_places_nodes_in_the_spawn_disk() {
    let records = vec![
        record("A", &["B"], ConstCategory::Theorem),
        record("B", &[], ConstCategory::Axiom),
        record("C", &["A", "nowhere"], ConstCategory::Other),
        record("D", &[], ConstCategory::Definition),
    ];
    let g = load_graph(&records);
    let r = spawn_radius(4) as i128;
    assert_eq!(g.nodes.len(), 4);
    assert_eq!(g.edges, vec![(1, 0), (0, 2)]);
    for n in g.nodes.iter() {
        let n = n.as_ref().unwrap();
        let (x, y) = (n.pos.x as i128, n.pos.y as i128);
        assert!(x * x + y * y <= r * r);
        assert!(n.color.r < 43691 && n.color.g < 43691 && n.color.b < 43691);
    }
}

#[test]
fn rebuilding_twice_gives_the_same_view() {
    let records = vec![
        record("A", &[], ConstCategory::Theorem),
        record("B", &["A"], ConstCategory::Other),
        record("C", &["A", "B"], ConstCategory::Axiom),
    ];
    let g = build(&records);
    let fs = FilterSettings::default();
    let v1 = rebuild(&g, &fs);
    let v2 = rebuild(&g, &fs);
    assert_eq!(v1, v2);
    assert_eq!(rebuild(&v1, &fs), v1);
    assert!(v1.nodes[1].is_none());
    assert_eq!(v1.edges, vec![(0, 2)]);
}

#[test]
fn out_degree_comes_from_the_canonical_graph() {
    // X has edges to Y (hidden by its category) and to Z.
    let records = vec![
        record("X", &[], ConstCategory::Axiom),
        record("Y", &["X"], ConstCategory::Other),
        record("Z", &["X"], ConstCategory::Theorem),
    ];
    let g = build(&records);
    let mut fs = FilterSettings::default();
    fs.outer_edge_cnt_filter = 1;
    let v = rebuild(&g, &fs);
    assert!(v.nodes[0].is_none());
    fs.outer_edge_cnt_filter = 2;
    let v = rebuild(&g, &fs);
    assert!(v.nodes[0].is_some());
    assert!(v.nodes[1].is_none());
    assert_eq!(v.edges, vec![(0, 2)]);
}

#[test]
fn write_back_copies_state_of_visible_nodes_only() {
    let records = vec![record("A", &[], ConstCategory::Theorem), record("B", &[], ConstCategory::Other)];
    let mut g = build(&records);
    let mut v = rebuild(&g, &FilterSettings::default());
    {
        let a = v.nodes[0].as_mut().unwrap();
        a.pos = Vec2 { x: 77, y: -5 };
        a.selected = true;
    }
    let b_before = g.nodes[1].clone();
    write_back(&mut g, &v);
    let a = g.nodes[0].as_ref().unwrap();
    assert_eq!(a.pos, Vec2 { x: 77, y: -5 });
    assert!(a.selected);
    assert_eq!(g.nodes[1], b_before);
}

#[test]
fn zero_time_step_changes_nothing() {
    let mut g = Graph {
        nodes: vec![Some(node("a", 0, 0, grey())), Some(node("b", 500, 20, grey()))],
        edges: vec![(0, 1)],
    };
    g.nodes[0].as_mut().unwrap().vel = Vec2 { x: 9, y: -9 };
    let before = g.clone();
    step(&mut g, &ForceSettings::default(), 0);
    assert_eq!(g, before);
}

#[test]
fn force_passes_sum_into_the_velocity() {
    let mut g = Graph {
        nodes: vec![Some(node("a", 0, 0, grey())), Some(node("b", 102_400, 0, grey()))],
        edges: vec![(0, 1)],
    };
    g.nodes[0].as_mut().unwrap().vel = Vec2 { x: 5, y: -3 };
    let mut fs = ForceSettings::default();
    fs.stiffness = 0;
    let dt = 16_000;
    let a = attraction(&g, &fs, dt);
    let r = repulsion(&g, &fs, dt);
    let c = center_of_mass(&g);
    assert_eq!(a, vec![(163, 0), (-163, 0)]);
    assert_eq!(r, vec![(-655_360, 0), (655_360, 0)]);
    assert_eq!(c, (51_200, 0));
    let cent0 = (c.0 - 0) * fs.b_force as i128 * dt as i128 / 1_000_000_000_000;
    assert_eq!(cent0, 40);
    step(&mut g, &fs, dt);
    let n0 = g.nodes[0].as_ref().unwrap();
    assert_eq!(n0.vel, Vec2 { x: 5 + 163 - 655_360 + 40, y: -3 });
    assert_eq!(n0.pos, Vec2 { x: -10_482, y: 0 });
}

#[test]
fn no_repulsion_beyond_the_radius_in_the_same_window() {
    let g = Graph {
        nodes: vec![Some(node("a", 0, 0, grey())), Some(node("b", 0, 250 * 1024, grey()))],
        edges: vec![],
    };
    let r = repulsion(&g, &ForceSettings::default(), 16_000);
    assert_eq!(r, vec![(0, 0), (0, 0)]);
}

#[test]
fn speed_is_held_under_the_ceiling() {
    let mut g = Graph { nodes: vec![Some(node("a", 0, 0, grey()))], edges: vec![] };
    g.nodes[0].as_mut().unwrap().vel = Vec2 { x: 40_000_000, y: 30_000_000 };
    let mut fs = ForceSettings::default();
    fs.stiffness = 0;
    step(&mut g, &fs, 10_000);
    let v = g.nodes[0].as_ref().unwrap().vel;
    assert_eq!(v, Vec2 { x: 8_192_000, y: 6_144_000 });
    assert!((v.x as i128) * (v.x as i128) + (v.y as i128) * (v.y as i128) <= SPEED_LIMIT * SPEED_LIMIT);
}

#[test]
fn no_loss_shows_intrinsic_colours() {
    let mut g = Graph {
        nodes: vec![
            Some(node("a", 0, 0, Rgb { r: 1000, g: 2000, b: 3000 })),
            Some(node("b", 0, 0, Rgb { r: 40000, g: 7, b: 0 })),
            Some(node("c", 0, 0, Rgb { r: 1, g: 2, b: 3 })),
        ],
        edges: vec![(0, 1), (0, 2), (1, 2)],
    };
    g.nodes[1].as_mut().unwrap().selected = true;
    g.nodes[2].as_mut().unwrap().size = 3000;
    recolor(&mut g, &ColoringSettings { color_loss: 0 });
    for n in g.nodes.iter() {
        let n = n.as_ref().unwrap();
        assert_eq!(n.comp_color(), n.color);
    }
}

#[test]
fn chain_passes_colour_toward_dependencies() {
    // A -> B -> C: B depends on A, C on B.
    let mut g = Graph {
        nodes: vec![
            Some(node("A", 0, 0, Rgb { r: 1000, g: 0, b: 0 })),
            Some(node("B", 0, 0, Rgb { r: 0, g: 1000, b: 0 })),
            Some(node("C", 0, 0, Rgb { r: 0, g: 0, b: 1000 })),
        ],
        edges: vec![(0, 1), (1, 2)],
    };
    let order = recolor(&mut g, &ColoringSettings { color_loss: LOSS_ONE });
    assert_eq!(order, vec![2, 1, 0]);
    let acc = |i: usize| g.nodes[i].as_ref().unwrap().comp_color;
    assert_eq!(acc(2), ColorAcc { r: 0, g: 0, b: 1_024_000, w: 1024 });
    assert_eq!(acc(1), ColorAcc { r: 0, g: 1_024_000, b: 1_024_000, w: 2048 });
    assert_eq!(acc(0), ColorAcc { r: 1_024_000, g: 1_024_000, b: 1_024_000, w: 3072 });
    assert_eq!(g.nodes[1].as_ref().unwrap().comp_color(), Rgb { r: 0, g: 500, b: 500 });
    assert_eq!(g.nodes[0].as_ref().unwrap().comp_color(), Rgb { r: 333, g: 333, b: 333 });
}

#[test]
fn half_loss_halves_what_passes() {
    let mut g = Graph {
        nodes: vec![Some(node("A", 0, 0, Rgb { r: 0, g: 0, b: 0 })), Some(node("B", 0, 0, Rgb { r: 3000, g: 0, b: 0 }))],
        edges: vec![(0, 1)],
    };
    recolor(&mut g, &ColoringSettings::default());
    let a = g.nodes[0].as_ref().unwrap().comp_color;
    assert_eq!(a, ColorAcc { r: 1_536_000, g: 0, b: 0, w: 1536 });
    assert_eq!(g.nodes[0].as_ref().unwrap().comp_color(), Rgb { r: 1000, g: 0, b: 0 });
}

#[test]
fn cycles_are_left_out_of_colouring() {
    let mut g = Graph {
        nodes: vec![
            Some(node("a", 0, 0, Rgb { r: 10, g: 20, b: 30 })),
            Some(node("b", 0, 0, Rgb { r: 40, g: 50, b: 60 })),
            Some(node("c", 0, 0, Rgb { r: 70, g: 80, b: 90 })),
        ],
        edges: vec![(0, 1), (1, 0), (0, 2)],
    };
    let rev = reverse_adjacency(&g);
    assert_eq!(rev, vec![vec![1], vec![0], vec![0]]);
    assert_eq!(topo_order(&g, &rev), vec![2]);
    recolor(&mut g, &ColoringSettings { color_loss: LOSS_ONE });
    assert_eq!(g.nodes[0].as_ref().unwrap().comp_color, ColorAcc { r: 0, g: 0, b: 0, w: 0 });
    assert_eq!(g.nodes[0].as_ref().unwrap().comp_color(), Rgb { r: 10, g: 20, b: 30 });
    assert_eq!(g.nodes[2].as_ref().unwrap().comp_color(), Rgb { r: 70, g: 80, b: 90 });
}

#[test]
fn tick_rebuilds_moves_and_recolours() {
    let records = vec![
        record("A", &[], ConstCategory::Theorem),
        record("B", &["A"], ConstCategory::Other),
        record("C", &["A"], ConstCategory::Axiom),
    ];
    let g = build(&records);
    let mut app = MApp::new(g);
    let order = app.tick(50_000);
    assert!(app.fg.nodes[1].is_none());
    assert_eq!(app.fg.edges, vec![(0, 2)]);
    assert_eq!(order, vec![2, 0]);
    assert!(app.fg.nodes[0].as_ref().unwrap().comp_color.w > 0);
    let saved = app.save_viz();
    assert_eq!(saved.g, app.g);
}

#[test]
fn replaced_graph_is_not_overwritten_by_the_old_view() {
    let records = vec![record("A", &[], ConstCategory::Theorem)];
    let mut app = MApp::new(build(&records));
    app.tick(16_000);
    let mut fresh = build(&records);
    fresh.nodes[0].as_mut().unwrap().pos = Vec2 { x: 123, y: 456 };
    app.replace_graph(fresh.clone());
    app.update_filter_graph();
    assert_eq!(app.g, fresh);
    assert_eq!(app.fg.nodes[0].as_ref().unwrap().pos, Vec2 { x: 123, y: 456 });
}

#[test]
fn randomising_colours_keeps_everything_else() {
    let records = vec![record("A", &[], ConstCategory::Theorem), record("B", &["A"], ConstCategory::Axiom)];
    let mut app = MApp::new(build(&records));
    app.update_filter_graph();
    let before = app.fg.clone();
    app.randomize_colors();
    for (n, m) in app.fg.nodes.iter().zip(before.nodes.iter()) {
        let (n, m) = (n.as_ref().unwrap(), m.as_ref().unwrap());
        assert!(n.color.r < 43691 && n.color.g < 43691 && n.color.b < 43691);
        assert_eq!(NodePayload { color: m.color, ..n.clone() }, m.clone());
    }
    assert_eq!(app.fg.edges, before.edges);
}

#[test]
fn restoring_a_session_replaces_graph_and_settings() {
    let records = vec![record("A", &[], ConstCategory::Theorem)];
    let mut app = MApp::new(build(&records));
    let mut saved = app.save_viz();
    saved.g.nodes[0].as_mut().unwrap().pos = Vec2 { x: -9, y: 9 };
    saved.coloring_settings = ColoringSettings { color_loss: 7 };
    saved.filter_settings.outer_edge_cnt_filter = 3;
    app.tick(16_000);
    app.load_stored_data(saved.clone());
    assert!(app.g_updated);
    assert_eq!(app.g, saved.g);
    assert_eq!(app.coloring_settings, ColoringSettings { color_loss: 7 });
    app.update_filter_graph();
    assert_eq!(app.fg.nodes[0].as_ref().unwrap().pos, Vec2 { x: -9, y: 9 });
    assert!(!app.g_updated);
}

#[test]
fn well_formedness_is_checked() {
    let good = Graph { nodes: vec![Some(node("a", 0, 0, grey())), None], edges: vec![] };
    assert!(good.is_well_formed());
    let dangling = Graph { nodes: vec![Some(node("a", 0, 0, grey())), None], edges: vec![(0, 1)] };
    assert!(!dangling.is_well_formed());
    let outside = Graph { nodes: vec![Some(node("a", i64::MAX, 0, grey()))], edges: vec![] };
    assert!(!outside.is_well_formed());
    let light = Graph { nodes: vec![Some(NodePayload { size: 1, ..node("a", 0, 0, grey()) })], edges: vec![] };
    assert!(!light.is_well_formed());
}

#[test]
fn default_settings() {
    assert_eq!(
        ForceSettings::default(),
        ForceSettings { r_force: 400, r_size: 200, e_force: 1000, b_force: 50_000, stiffness: 500_000 }
    );
    let fs = FilterSettings::default();
    assert!(fs.enabled(ConstCategory::Theorem) && fs.enabled(ConstCategory::Axiom));
    assert!(fs.enabled(ConstCategory::Definition) && !fs.enabled(ConstCategory::Other));
    assert_eq!(fs.outer_edge_cnt_filter, 10);
    assert_eq!(ColoringSettings::default().color_loss, 32768);
}
