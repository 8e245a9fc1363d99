use solver::amount::Fl;
use solver::builder::is_buildable;
use solver::graph::{Edge, Graph, Node};
use solver::id_map::IdMap;
use solver::ids::{BuildingId, ItemId, RecipeId};
use solver::recipe::{Recipe, Solution, Target};
use solver::sort_nodes::{sort_nodes, try_sort_nodes};

fn map<V>(pairs: Vec<(usize, V)>) -> IdMap<V> {
    let mut m = IdMap::new();
    for (k, v) in pairs {
        m.insert(k, v);
    }
    m
}

fn recipe(inputs: Vec<(usize, i64)>, outputs: Vec<(usize, i64)>, time: i64) -> Recipe {
    Recipe {
        inputs: map(inputs.into_iter().map(|(k, v)| (k, Fl(v))).collect()),
        outputs: map(outputs.into_iter().map(|(k, v)| (k, Fl(v))).collect()),
        time: Fl(time),
        building: BuildingId(0),
    }
}

fn amounts(pairs: Vec<(usize, i64)>) -> IdMap<Fl> {
    map(pairs.into_iter().map(|(k, v)| (k, Fl(v))).collect())
}

const ORE: usize = 0;
const INGOT: usize = 1;
const PLATE: usize = 2;

/// Iron ingots (1 ore each, 2 s) and iron plates (3 ingots for 2 plates, 6 s).
fn iron_book() -> IdMap<Recipe> {
    map(vec![
        (0, recipe(vec![(ORE, 10000)], vec![(INGOT, 10000)], 20000)),
        (1, recipe(vec![(INGOT, 30000)], vec![(PLATE, 20000)], 60000)),
    ])
}

/// 35 plates per minute: 1.75 buildings of each recipe, 52.5 ore per minute.
fn iron_solution() -> Solution {
    Solution {
        recipes: amounts(vec![(0, 17500), (1, 17500)]),
        inputs: amounts(vec![(ORE, 525000)]),
        outputs: amounts(vec![(PLATE, 350000)]),
    }
}

fn edge(from: usize, to: usize, iid: usize, amount: i64) -> Edge {
    Edge { from, to, iid: ItemId(iid), amount: Fl(amount) }
}

#[test]
fn iron_plates_chain() {
    let targets = [Target { iid: ItemId(PLATE), qty: Some(Fl(350000)) }];
    let graph = Graph::build_from_solution(&iron_solution(), &targets, &iron_book());
    assert_eq!(
        graph.nodes(),
        &[
            Node::Output { iid: ItemId(PLATE), amount: Fl(350000) },
            Node::Input { iid: ItemId(ORE), amount: Fl(525000) },
            Node::Recipe { rid: RecipeId(1), amount: Fl(17500) },
            Node::Recipe { rid: RecipeId(0), amount: Fl(17500) },
        ]
    );
    assert_eq!(
        graph.edges(),
        &[edge(2, 0, PLATE, 350000), edge(3, 2, INGOT, 525000), edge(1, 3, ORE, 525000)]
    );
}

#[test]
fn iron_plates_levels() {
    let targets = [Target { iid: ItemId(PLATE), qty: None }];
    let graph = Graph::build_from_solution(&iron_solution(), &targets, &iron_book());
    let (levels, max) = sort_nodes(&graph);
    assert_eq!(max, 3);
    let levels: Vec<(usize, usize)> = levels.into_iter().collect();
    assert_eq!(levels, vec![(0, 3), (1, 0), (2, 2), (3, 1)]);
}

#[test]
fn target_without_output_is_skipped() {
    let targets = [Target { iid: ItemId(7), qty: None }];
    let graph = Graph::build_from_solution(&iron_solution(), &targets, &iron_book());
    assert_eq!(graph.nodes(), &[Node::Input { iid: ItemId(ORE), amount: Fl(525000) }]);
    assert!(graph.edges().is_empty());
}

/// A recipe that turns 2 of item 0 into 1 of item 0 and 1 of item 1 per
/// minute, run by 100 buildings on 100 of item 0 per minute.
#[test]
fn feedback_loop() {
    let book = map(vec![(0, recipe(vec![(0, 20000)], vec![(0, 10000), (1, 10000)], 600000))]);
    let solution = Solution {
        recipes: amounts(vec![(0, 1000000)]),
        inputs: amounts(vec![(0, 1000000)]),
        outputs: amounts(vec![(1, 1000000)]),
    };
    let targets = [Target { iid: ItemId(1), qty: None }];
    let graph = Graph::build_from_solution(&solution, &targets, &book);
    assert_eq!(
        graph.nodes(),
        &[
            Node::Output { iid: ItemId(1), amount: Fl(1000000) },
            Node::Input { iid: ItemId(0), amount: Fl(1000000) },
            Node::Recipe { rid: RecipeId(0), amount: Fl(1000000) },
        ]
    );
    assert_eq!(
        graph.edges(),
        &[edge(2, 0, 1, 1000000), edge(2, 2, 0, 1000000), edge(1, 2, 0, 1000000)]
    );
    let (levels, max) = sort_nodes(&graph);
    assert_eq!(max, 2);
    let levels: Vec<(usize, usize)> = levels.into_iter().collect();
    assert_eq!(levels, vec![(0, 2), (1, 0), (2, 1)]);
}

/// A recipe making item 1 with item 2 on the side: the side product gets an
/// excess node fed by the recipe.
#[test]
fn by_product_gets_excess_node() {
    let book = map(vec![(0, recipe(vec![(0, 10000)], vec![(1, 10000), (2, 10000)], 600000))]);
    let solution = Solution {
        recipes: amounts(vec![(0, 10000)]),
        inputs: amounts(vec![(0, 10000)]),
        outputs: amounts(vec![(1, 10000), (2, 10000)]),
    };
    let targets = [Target { iid: ItemId(1), qty: None }];
    let graph = Graph::build_from_solution(&solution, &targets, &book);
    assert_eq!(
        graph.nodes(),
        &[
            Node::Output { iid: ItemId(1), amount: Fl(10000) },
            Node::Input { iid: ItemId(0), amount: Fl(10000) },
            Node::Recipe { rid: RecipeId(0), amount: Fl(10000) },
            Node::Excess { iid: ItemId(2), amount: Fl(10000) },
        ]
    );
    assert_eq!(graph.edges(), &[edge(2, 0, 1, 10000), edge(1, 2, 0, 10000), edge(2, 3, 2, 10000)]);
    let (levels, max) = sort_nodes(&graph);
    assert_eq!(max, 2);
    let levels: Vec<(usize, usize)> = levels.into_iter().collect();
    assert_eq!(levels, vec![(0, 2), (1, 0), (2, 1), (3, 2)]);
}

/// A side product below 0.02 per minute gets no node.
#[test]
fn tiny_by_product_is_dropped() {
    let book = map(vec![(0, recipe(vec![(0, 10000)], vec![(1, 10000), (2, 100)], 600000))]);
    let solution = Solution {
        recipes: amounts(vec![(0, 10000)]),
        inputs: amounts(vec![(0, 10000)]),
        outputs: amounts(vec![(1, 10000)]),
    };
    let targets = [Target { iid: ItemId(1), qty: None }];
    let graph = Graph::build_from_solution(&solution, &targets, &book);
    assert_eq!(graph.nodes().len(), 3);
    assert_eq!(graph.edges(), &[edge(2, 0, 1, 10000), edge(1, 2, 0, 10000)]);
}

/// Two producers of the same item: the need is served from the one recorded
/// last, then from the other, then from the input.
#[test]
fn need_split_between_producers_and_input() {
    // recipe 0 makes 1 of item 1 from item 0; recipe 1 makes 1 of item 1 from
    // item 2; both are needed for the 3 of item 1 per minute the target asks,
    // and 1 more comes straight from the input of item 1
    let book = map(vec![
        (0, recipe(vec![(0, 10000)], vec![(1, 10000)], 600000)),
        (1, recipe(vec![(2, 10000)], vec![(1, 10000)], 600000)),
    ]);
    let solution = Solution {
        recipes: amounts(vec![(0, 10000), (1, 10000)]),
        inputs: amounts(vec![(0, 10000), (1, 10000), (2, 10000)]),
        outputs: amounts(vec![(1, 30000)]),
    };
    let targets = [Target { iid: ItemId(1), qty: Some(Fl(30000)) }];
    let graph = Graph::build_from_solution(&solution, &targets, &book);
    assert_eq!(
        graph.nodes(),
        &[
            Node::Output { iid: ItemId(1), amount: Fl(30000) },
            Node::Input { iid: ItemId(0), amount: Fl(10000) },
            Node::Input { iid: ItemId(1), amount: Fl(10000) },
            Node::Input { iid: ItemId(2), amount: Fl(10000) },
            Node::Recipe { rid: RecipeId(0), amount: Fl(10000) },
            Node::Recipe { rid: RecipeId(1), amount: Fl(10000) },
        ]
    );
    assert_eq!(
        graph.edges(),
        &[
            edge(5, 0, 1, 10000),
            edge(4, 0, 1, 10000),
            edge(2, 0, 1, 10000),
            edge(1, 4, 0, 10000),
            edge(3, 5, 2, 10000),
        ]
    );
}

/// A producer with more than needed keeps the rest for later needs.
#[test]
fn leftover_production_is_kept() {
    // recipe 0 makes 2 of item 1 per minute; the target takes 0.5 and the
    // rest, 1.5, ends in an excess node
    let book = map(vec![(0, recipe(vec![(0, 10000)], vec![(1, 20000)], 600000))]);
    let solution = Solution {
        recipes: amounts(vec![(0, 10000)]),
        inputs: amounts(vec![(0, 10000)]),
        outputs: amounts(vec![(1, 5000)]),
    };
    let targets = [Target { iid: ItemId(1), qty: None }];
    let graph = Graph::build_from_solution(&solution, &targets, &book);
    assert_eq!(
        graph.nodes(),
        &[
            Node::Output { iid: ItemId(1), amount: Fl(5000) },
            Node::Input { iid: ItemId(0), amount: Fl(10000) },
            Node::Recipe { rid: RecipeId(0), amount: Fl(10000) },
            Node::Excess { iid: ItemId(1), amount: Fl(15000) },
        ]
    );
    assert_eq!(graph.edges(), &[edge(2, 0, 1, 5000), edge(1, 2, 0, 10000), edge(2, 3, 1, 15000)]);
}

#[test]
fn unbuildable_solutions_are_refused() {
    let targets = [Target { iid: ItemId(PLATE), qty: None }];
    // a recipe of the solution missing from the book
    let book = map(vec![(0, recipe(vec![(ORE, 10000)], vec![(INGOT, 10000)], 20000))]);
    assert!(!is_buildable(&iron_solution(), &book));
    assert!(Graph::try_build_from_solution(&iron_solution(), &targets, &book).is_none());
    // a recipe that takes no time
    let book = map(vec![
        (0, recipe(vec![(ORE, 10000)], vec![(INGOT, 10000)], 0)),
        (1, recipe(vec![(INGOT, 30000)], vec![(PLATE, 20000)], 60000)),
    ]);
    assert!(Graph::try_build_from_solution(&iron_solution(), &targets, &book).is_none());
    // an amount too large to be handled
    let solution = Solution {
        recipes: amounts(vec![(0, 17500), (1, 17500)]),
        inputs: amounts(vec![(ORE, 525000)]),
        outputs: amounts(vec![(PLATE, i64::MAX)]),
    };
    assert!(Graph::try_build_from_solution(&solution, &targets, &iron_book()).is_none());
    // the regular case
    assert!(is_buildable(&iron_solution(), &iron_book()));
    let graph = Graph::try_build_from_solution(&iron_solution(), &targets, &iron_book()).unwrap();
    assert_eq!(graph.nodes().len(), 4);
}

#[test]
fn graph_new_checks_edges() {
    let nodes = vec![
        Node::Input { iid: ItemId(0), amount: Fl(1) },
        Node::Output { iid: ItemId(0), amount: Fl(1) },
    ];
    assert!(Graph::new(nodes.clone(), vec![edge(0, 1, 0, 1)]).is_some());
    assert!(Graph::new(nodes, vec![edge(0, 2, 0, 1)]).is_none());
}

#[test]
fn output_cut_from_its_input_is_not_sortable() {
    // two outputs fed by the same input: exploring the second output finds
    // the input already visited and cuts its link, leaving an output with a
    // cut link and no edge of its own to place it by
    let nodes = vec![
        Node::Output { iid: ItemId(0), amount: Fl(1) },
        Node::Output { iid: ItemId(1), amount: Fl(1) },
        Node::Input { iid: ItemId(2), amount: Fl(2) },
    ];
    let edges = vec![edge(2, 0, 2, 1), edge(2, 1, 2, 1)];
    let graph = Graph::new(nodes, edges).unwrap();
    assert!(try_sort_nodes(&graph).is_none());
}

#[test]
fn loop_between_recipes_is_levelled() {
    // 0 is an output fed by 1; 1 and 2 feed each other: the link from 2 back
    // to 1 is cut, and 2 is raised next to 1
    let nodes = vec![
        Node::Output { iid: ItemId(0), amount: Fl(1) },
        Node::Recipe { rid: RecipeId(0), amount: Fl(1) },
        Node::Recipe { rid: RecipeId(1), amount: Fl(1) },
    ];
    let edges = vec![edge(1, 0, 0, 1), edge(2, 1, 1, 1), edge(1, 2, 2, 1)];
    let graph = Graph::new(nodes, edges).unwrap();
    let (levels, max) = try_sort_nodes(&graph).unwrap();
    assert_eq!(max, 1);
    let levels: Vec<(usize, usize)> = levels.into_iter().collect();
    assert_eq!(levels, vec![(0, 1), (1, 0), (2, 0)]);
}

#[test]
fn levels_rise_along_kept_links() {
    // 3 (input) feeds 2, 2 and 1 feed each other, 1 feeds the output 0: the
    // link from 1 back to 2 is cut; the kept links 3 -> 2 and 1 -> 0 rise,
    // and 2 is raised next to 1, whose link to it reverses the cut one
    let nodes = vec![
        Node::Output { iid: ItemId(0), amount: Fl(1) },
        Node::Recipe { rid: RecipeId(0), amount: Fl(1) },
        Node::Recipe { rid: RecipeId(1), amount: Fl(1) },
        Node::Input { iid: ItemId(3), amount: Fl(1) },
    ];
    let edges = vec![edge(1, 0, 0, 1), edge(2, 1, 1, 1), edge(1, 2, 2, 1), edge(3, 2, 3, 1)];
    let graph = Graph::new(nodes, edges).unwrap();
    let (levels, max) = sort_nodes(&graph);
    assert_eq!(max, 2);
    let levels: Vec<(usize, usize)> = levels.into_iter().collect();
    assert_eq!(levels, vec![(0, 2), (1, 1), (2, 1), (3, 0)]);
}

#[test]
fn every_node_gets_a_level() {
    // two recipes make the target item; the output takes it from 1, while 2
    // only feeds a by-product and is not reached from the output: it goes
    // just above its input
    let nodes = vec![
        Node::Output { iid: ItemId(2), amount: Fl(10000) },
        Node::Recipe { rid: RecipeId(0), amount: Fl(10000) },
        Node::Recipe { rid: RecipeId(1), amount: Fl(10000) },
        Node::Input { iid: ItemId(0), amount: Fl(20000) },
        Node::Excess { iid: ItemId(2), amount: Fl(10000) },
    ];
    let edges = vec![
        edge(1, 0, 2, 10000),
        edge(3, 1, 0, 10000),
        edge(3, 2, 0, 10000),
        edge(2, 4, 2, 10000),
    ];
    let graph = Graph::new(nodes, edges).unwrap();
    let (levels, max) = sort_nodes(&graph);
    assert_eq!(max, 2);
    let levels: Vec<(usize, usize)> = levels.into_iter().collect();
    assert_eq!(levels, vec![(0, 2), (1, 1), (2, 1), (3, 0), (4, 2)]);
}

#[test]
fn lib_test_maximize() {
    // 120 ore per minute, maximizing plates with a plate recipe that also
    // gives back one ore and one waste item per run
    let waste = 3;
    let book = map(vec![
        (0, recipe(vec![(ORE, 10000)], vec![(INGOT, 10000)], 20000)),
        (1, recipe(vec![(INGOT, 30000)], vec![(PLATE, 20000), (ORE, 10000), (waste, 10000)], 60000)),
    ]);
    let solution = Solution {
        recipes: amounts(vec![(0, 60000), (1, 60000)]),
        inputs: amounts(vec![(ORE, 1200000)]),
        outputs: amounts(vec![(PLATE, 1200000), (waste, 600000)]),
    };
    let targets = [Target { iid: ItemId(PLATE), qty: None }];
    let graph = Graph::build_from_solution(&solution, &targets, &book);
    assert_eq!(
        graph.nodes(),
        &[
            Node::Output { iid: ItemId(PLATE), amount: Fl(1200000) },
            Node::Input { iid: ItemId(ORE), amount: Fl(1200000) },
            Node::Recipe { rid: RecipeId(1), amount: Fl(60000) },
            Node::Recipe { rid: RecipeId(0), amount: Fl(60000) },
            Node::Excess { iid: ItemId(waste), amount: Fl(600000) },
        ]
    );
    assert_eq!(
        graph.edges(),
        &[
            edge(2, 0, PLATE, 1200000),
            edge(3, 2, INGOT, 1800000),
            edge(2, 3, ORE, 600000),
            edge(1, 3, ORE, 1200000),
            edge(2, 4, waste, 600000),
        ]
    );
    assert!(graph.to_dot().starts_with("digraph"));
}
