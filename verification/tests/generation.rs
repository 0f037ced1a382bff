use dag_gen::Dag;
use dag_gen::Edge;
use dag_gen::Error;
use dag_gen::FRONT_PROP_ONE;
use dag_gen::Pref;
use dag_gen::generate_dag;
use dag_gen::generate_tree;
use dag_gen::get_random_generator;
use dag_gen::merge_dags;
use dag_gen::validate_preferences;

fn pref(size: u32, iterations: u32, seed: Option<u64>, front_prop: u32, max_forks: u32, min_forks: u32) -> Pref {
    Pref { size, iterations, seed, front_prop, max_forks, min_forks }
}

fn assert_well_formed(d: &Dag) {
    for (i, e) in d.edges.iter().enumerate() {
        assert!(e.source < e.target, "edge {} does not ascend", i);
        assert!(e.target < d.size, "edge {} out of range", i);
        for (j, f) in d.edges.iter().enumerate() {
            if i != j {
                assert!(
                    e.source != f.source || e.target != f.target,
                    "duplicate edge at {} and {}",
                    i,
                    j
                );
            }
        }
    }
}

#[test]
fn node_count_matches_size() {
    let d = generate_dag(&pref(10, 2, Some(42), FRONT_PROP_ONE / 4, 4, 1)).unwrap();
    assert_eq!(d.size, 10);
}

#[test]
fn edges_in_range_no_self_loops() {
    let d = generate_dag(&pref(17, 3, Some(5), FRONT_PROP_ONE / 2, 3, 0)).unwrap();
    for e in &d.edges {
        assert!(e.source != e.target);
        assert!(e.source < 17 && e.target < 17);
    }
}

#[test]
fn no_duplicate_edges() {
    let d = generate_dag(&pref(12, 5, Some(9), FRONT_PROP_ONE / 3, 5, 0)).unwrap();
    assert_well_formed(&d);
}

#[test]
fn seeded_runs_are_deterministic() {
    let p = pref(20, 4, Some(123456789), FRONT_PROP_ONE / 4, 4, 1);
    let a = generate_dag(&p).unwrap();
    let b = generate_dag(&p).unwrap();
    assert_eq!(a.size, b.size);
    assert_eq!(a.edges, b.edges);
}

#[test]
fn single_tree_has_size_minus_one_edges() {
    for seed in [0u64, 1, 7, 99, 1234] {
        let d = generate_dag(&pref(9, 0, Some(seed), FRONT_PROP_ONE / 4, 4, 1)).unwrap();
        assert_eq!(d.edges.len(), 8);
        assert_well_formed(&d);
    }
}

#[test]
fn single_node_tree_has_no_edges() {
    let d = generate_dag(&pref(1, 3, Some(11), FRONT_PROP_ONE / 4, 4, 1)).unwrap();
    assert_eq!(d.size, 1);
    assert_eq!(d.edges.len(), 0);
}

#[test]
fn more_iterations_never_fewer_edges() {
    let mut last = 0;
    for iterations in 0..6 {
        let d = generate_dag(&pref(15, iterations, Some(77), FRONT_PROP_ONE / 4, 3, 1)).unwrap();
        assert!(d.edges.len() >= last);
        last = d.edges.len();
    }
}

#[test]
fn front_prop_zero_expands_depth_first() {
    // With a fixed fan-out of two the shape is forced, whatever the seed: the
    // back of the queue is popped at every step.
    let d = generate_dag(&pref(5, 0, Some(31), 0, 2, 2)).unwrap();
    let expected = vec![
        Edge { source: 0, target: 1 },
        Edge { source: 0, target: 2 },
        Edge { source: 2, target: 3 },
        Edge { source: 2, target: 4 },
    ];
    assert_eq!(d.edges, expected);
}

#[test]
fn front_prop_one_expands_breadth_first() {
    // With a fixed fan-out of two the shape is forced, whatever the seed: the
    // front of the queue is popped at every step.
    let d = generate_dag(&pref(5, 0, Some(31), FRONT_PROP_ONE, 2, 2)).unwrap();
    let expected = vec![
        Edge { source: 0, target: 1 },
        Edge { source: 0, target: 2 },
        Edge { source: 1, target: 3 },
        Edge { source: 1, target: 4 },
    ];
    assert_eq!(d.edges, expected);
}

#[test]
fn front_prop_above_one_is_rejected() {
    // The numerator for 1.5: half again beyond probability one.
    let r = generate_dag(&pref(5, 0, Some(0), FRONT_PROP_ONE + FRONT_PROP_ONE / 2, 2, 1));
    match r {
        Err(Error::PreferenceError(m)) => {
            assert_eq!(m, "--front-prop has to be between 0 and 1!");
        },
        _ => panic!("out-of-range front_prop was not rejected"),
    }
}

#[test]
fn crossed_fork_bounds_are_rejected() {
    let r = generate_dag(&pref(5, 0, Some(0), FRONT_PROP_ONE / 4, 2, 5));
    match r {
        Err(Error::PreferenceError(m)) => {
            assert_eq!(
                m,
                "The maximum number of forks can not be lower than the minimum number of forks!"
            );
        },
        _ => panic!("crossed fork bounds were not rejected"),
    }
}

#[test]
fn zero_size_is_rejected() {
    let r = generate_dag(&pref(0, 0, Some(0), FRONT_PROP_ONE / 4, 2, 1));
    match r {
        Err(Error::PreferenceError(m)) => {
            assert_eq!(m, "--size has to be at least 1!");
        },
        _ => panic!("zero size was not rejected"),
    }
}

#[test]
fn validator_accepts_valid_preferences() {
    assert!(validate_preferences(&pref(5, 3, None, FRONT_PROP_ONE, 4, 0)).is_ok());
    assert!(validate_preferences(&pref(1, 0, Some(0), 0, 0, 0)).is_ok());
}

#[test]
fn chain_example() {
    let d = generate_dag(&pref(5, 0, Some(0), FRONT_PROP_ONE, 1, 1)).unwrap();
    let expected = vec![
        Edge { source: 0, target: 1 },
        Edge { source: 1, target: 2 },
        Edge { source: 2, target: 3 },
        Edge { source: 3, target: 4 },
    ];
    assert_eq!(d.size, 5);
    assert_eq!(d.edges, expected);
}

#[test]
fn entropy_seeded_run_is_well_formed() {
    let d = generate_dag(&pref(8, 2, None, FRONT_PROP_ONE / 4, 3, 1)).unwrap();
    assert_eq!(d.size, 8);
    assert!(d.edges.len() >= 7);
    assert_well_formed(&d);
}

#[test]
fn zero_min_forks_can_leave_nodes_unassigned() {
    // Without a lower fork bound the open queue may run dry early, so only an
    // upper bound on the edge count holds.
    for seed in [0u64, 3, 8, 21] {
        let d = generate_dag(&pref(10, 0, Some(seed), FRONT_PROP_ONE / 2, 1, 0)).unwrap();
        assert!(d.edges.len() <= 9);
        assert_well_formed(&d);
    }
}

#[test]
fn merge_keeps_first_and_filters_duplicates() {
    let dag1 = Dag {
        size: 4,
        edges: vec![Edge { source: 0, target: 1 }, Edge { source: 1, target: 2 }],
    };
    let dag2 = Dag {
        size: 4,
        edges: vec![
            Edge { source: 0, target: 1 },
            Edge { source: 0, target: 3 },
            Edge { source: 1, target: 2 },
            Edge { source: 2, target: 3 },
        ],
    };
    let merged = merge_dags(&dag1, &dag2).unwrap();
    let expected = vec![
        Edge { source: 0, target: 1 },
        Edge { source: 1, target: 2 },
        Edge { source: 0, target: 3 },
        Edge { source: 2, target: 3 },
    ];
    assert_eq!(merged.size, 4);
    assert_eq!(merged.edges, expected);
}

#[test]
fn tree_generator_continues_the_stream() {
    // Two trees drawn from one generator differ in general, while re-seeding
    // reproduces the first tree exactly.
    let p = pref(30, 0, Some(4242), FRONT_PROP_ONE / 2, 3, 0);
    let mut rng = get_random_generator(&p);
    let t1 = generate_tree(&p, &mut rng).unwrap();
    let t2 = generate_tree(&p, &mut rng).unwrap();
    let mut rng_again = get_random_generator(&p);
    let t1_again = generate_tree(&p, &mut rng_again).unwrap();
    assert_eq!(t1.edges, t1_again.edges);
    assert!(t1.edges != t2.edges, "independent trees from one stream should differ here");
}
