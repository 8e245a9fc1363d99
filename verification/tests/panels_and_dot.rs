use solver::amount::Fl;
use solver::graph::{Edge, Graph, Node};
use solver::id_map::IdMap;
use solver::ids::{ItemId, RecipeId};
use solver::ids::BuildingId;
use solver::panels::{
    amount_input_disabled, contains_text, drop_item, initial_ticks, item_search_keys, recipe_search_keys, search, search_items,
    search_key, search_recipes, sync_selection,
};
use solver::recipe::Recipe;

fn ids(v: &[usize]) -> Vec<ItemId> {
    v.iter().map(|i| ItemId(*i)).collect()
}

#[test]
fn selection_follows_check_boxes() {
    let mut checked = IdMap::new();
    for (k, v) in [(1, true), (2, true), (3, false), (4, true), (5, true)] {
        checked.insert(k, v);
    }
    let change = sync_selection(&ids(&[3, 1, 5]), &checked);
    assert_eq!(change.list, ids(&[1, 5, 2, 4]));
    assert_eq!(change.enabled.entries(), &[(2, ()), (4, ())]);
    assert_eq!(change.disabled.entries(), &[(3, ())]);
}

#[test]
fn item_listed_twice_leaves_the_list() {
    let mut checked = IdMap::new();
    checked.insert(1, true);
    let change = sync_selection(&ids(&[1, 1]), &checked);
    assert!(change.list.is_empty());
    assert!(change.enabled.entries().is_empty());
    assert_eq!(change.disabled.entries(), &[(1, ())]);
}

#[test]
fn dragged_item_moves_to_hovered_place() {
    let mut list = ids(&[10, 11, 12, 13]);
    drop_item(&mut list, Some(0), Some(2), true);
    assert_eq!(list, ids(&[11, 12, 10, 13]));
    drop_item(&mut list, Some(3), Some(0), true);
    assert_eq!(list, ids(&[13, 11, 12, 10]));
    drop_item(&mut list, Some(0), Some(1), false);
    drop_item(&mut list, Some(1), Some(1), true);
    drop_item(&mut list, None, Some(1), true);
    assert_eq!(list, ids(&[13, 11, 12, 10]));
}

#[test]
fn amount_inputs_lock() {
    assert!(!amount_input_disabled(true, None, None));
    assert!(!amount_input_disabled(true, Some(true), Some(false)));
    assert!(amount_input_disabled(false, None, None));
    assert!(amount_input_disabled(true, Some(false), None));
    assert!(amount_input_disabled(true, Some(true), Some(true)));
}

#[test]
fn search_ignores_case() {
    assert_eq!(search_key("Iron Plate"), "iron plate");
    assert!(contains_text("iron plate", "on pl"));
    assert!(!contains_text("iron plate", "plates"));
    assert!(contains_text("iron plate", ""));
    let keys = vec![
        (search_key("Iron Plate"), 0),
        (search_key("Iron Ingot"), 1),
        (search_key("Copper Wire"), 2),
    ];
    let mut shown = IdMap::new();
    for (k, v) in [(0, true), (1, false), (2, true)] {
        shown.insert(k, v);
    }
    let found = search(&keys, "IRON", &shown);
    assert_eq!(found.entries(), &[(0, true), (1, false)]);
    let all = search(&keys, "", &shown);
    assert_eq!(all.entries(), shown.entries());
    let none = search(&keys, "steel", &shown);
    assert!(none.entries().is_empty());
}

#[test]
fn graph_in_dot_language() {
    let nodes = vec![
        Node::Output { iid: ItemId(2), amount: Fl(350000) },
        Node::Input { iid: ItemId(0), amount: Fl(525000) },
        Node::Recipe { rid: RecipeId(1), amount: Fl(17500) },
        Node::Recipe { rid: RecipeId(0), amount: Fl(17500) },
        Node::Excess { iid: ItemId(7), amount: Fl(-5) },
    ];
    let edges = vec![
        Edge { from: 2, to: 0, iid: ItemId(2), amount: Fl(350000) },
        Edge { from: 3, to: 2, iid: ItemId(1), amount: Fl(525000) },
        Edge { from: 1, to: 3, iid: ItemId(0), amount: Fl(14500) },
        Edge { from: 3, to: 4, iid: ItemId(7), amount: Fl(-5) },
    ];
    let graph = Graph::new(nodes, edges).unwrap();
    let expected = [
        "digraph G {\n",
        "  0 [label=\"Output ItemId(2) x35\"];\n",
        "  1 [label=\"Input ItemId(0) x52.5\"];\n",
        "  2 [label=\"Recipe RecipeId(1) x1.75\"];\n",
        "  3 [label=\"Recipe RecipeId(0) x1.75\"];\n",
        "  4 [label=\"Output ItemId(7) x-0.0005\"];\n",
        "  2 -> 0 [label=\"ItemId(2) 35.0/min\"];\n",
        "  3 -> 2 [label=\"ItemId(1) 52.5/min\"];\n",
        "  1 -> 3 [label=\"ItemId(0) 1.5/min\"];\n",
        "  3 -> 4 [label=\"ItemId(7) -0.0/min\"];\n",
        "}\n",
    ]
    .concat();
    assert_eq!(graph.to_dot(), expected);
}

fn names(pairs: &[(usize, &str)]) -> IdMap<String> {
    let mut m = IdMap::new();
    for (k, v) in pairs {
        m.insert(*k, String::from(*v));
    }
    m
}

fn smelting_book() -> IdMap<Recipe> {
    let mut book = IdMap::new();
    let mut ins = IdMap::new();
    ins.insert(0, Fl(10000));
    let mut outs = IdMap::new();
    outs.insert(1, Fl(10000));
    book.insert(7, Recipe { inputs: ins, outputs: outs, time: Fl(20000), building: BuildingId(0) });
    let mut ins = IdMap::new();
    ins.insert(1, Fl(30000));
    let mut outs = IdMap::new();
    outs.insert(2, Fl(20000));
    book.insert(9, Recipe { inputs: ins, outputs: outs, time: Fl(60000), building: BuildingId(0) });
    book
}

#[test]
fn recipe_keys_hold_recipe_and_item_names() {
    let book = smelting_book();
    let recipe_names = names(&[(7, "Iron Ingot"), (9, "Iron Plate")]);
    let item_names = names(&[(0, "Iron Ore"), (1, "Iron Ingot"), (2, "Iron Plate")]);
    let keys = recipe_search_keys(&book, &recipe_names, &item_names);
    let expected: Vec<(String, usize)> = vec![
        (String::from("iron ingot"), 7),
        (String::from("iron ore"), 7),
        (String::from("iron ingot"), 7),
        (String::from("iron plate"), 9),
        (String::from("iron ingot"), 9),
        (String::from("iron plate"), 9),
    ];
    assert_eq!(keys, expected);
}

#[test]
fn recipes_are_found_by_the_names_of_their_items() {
    let book = smelting_book();
    let recipe_names = names(&[(7, "Iron Ingot"), (9, "Iron Plate")]);
    let item_names = names(&[(0, "Iron Ore"), (1, "Iron Ingot"), (2, "Iron Plate")]);
    let mut shown = IdMap::new();
    shown.insert(7, ());
    shown.insert(9, ());
    // only the smelter takes ore
    let found = search_recipes(&book, &recipe_names, &item_names, "ORE", &shown);
    assert_eq!(found.entries(), &[(7, ())]);
    // both handle ingots
    let found = search_recipes(&book, &recipe_names, &item_names, "ingot", &shown);
    assert_eq!(found.entries(), &[(7, ()), (9, ())]);
    let found = search_recipes(&book, &recipe_names, &item_names, "", &shown);
    assert_eq!(found.entries(), shown.entries());
    let found = search_recipes(&book, &recipe_names, &item_names, "copper", &shown);
    assert!(found.entries().is_empty());
}

#[test]
fn items_are_found_by_name() {
    let item_names = names(&[(0, "Iron Ore"), (1, "Iron Ingot"), (2, "Copper Ore")]);
    let mut shown = IdMap::new();
    shown.insert(0, true);
    shown.insert(2, false);
    shown.insert(5, true);
    let keys = item_search_keys(&shown, &item_names);
    assert_eq!(keys, vec![(String::from("iron ore"), 0), (String::from("copper ore"), 2)]);
    let found = search_items(&shown, &item_names, "Ore");
    assert_eq!(found.entries(), &[(0, true), (2, false)]);
    let found = search_items(&shown, &item_names, "iron");
    assert_eq!(found.entries(), &[(0, true)]);
    let found = search_items(&shown, &item_names, "");
    assert_eq!(found.entries(), shown.entries());
}

#[test]
fn input_panel_opens_with_available_items_ticked() {
    let mut items = IdMap::new();
    for k in [0, 1, 2] {
        items.insert(k, ());
    }
    let ticks = initial_ticks(&items, &ids(&[2, 7]));
    assert_eq!(ticks.entries(), &[(0, false), (1, false), (2, true), (7, true)]);
}

#[test]
fn of_items_sharing_a_name_the_last_is_searched() {
    let item_names = names(&[(0, "Iron Ore"), (1, "Copper Ore"), (3, "IRON ORE")]);
    let mut shown = IdMap::new();
    for k in [0, 1, 3] {
        shown.insert(k, ());
    }
    let keys = item_search_keys(&shown, &item_names);
    assert_eq!(keys, vec![(String::from("copper ore"), 1), (String::from("iron ore"), 3)]);
    let found = search_items(&shown, &item_names, "iron");
    assert_eq!(found.entries(), &[(3, ())]);
}

#[test]
fn of_recipes_sharing_a_name_the_last_keeps_it() {
    let book = smelting_book();
    let recipe_names = names(&[(7, "Smelting"), (9, "smelting")]);
    let item_names = names(&[(0, "Iron Ore"), (1, "Iron Ingot"), (2, "Iron Plate")]);
    let keys = recipe_search_keys(&book, &recipe_names, &item_names);
    let expected: Vec<(String, usize)> = vec![
        (String::from("iron ore"), 7),
        (String::from("iron ingot"), 7),
        (String::from("smelting"), 9),
        (String::from("iron ingot"), 9),
        (String::from("iron plate"), 9),
    ];
    assert_eq!(keys, expected);
    let mut shown = IdMap::new();
    shown.insert(7, ());
    shown.insert(9, ());
    let found = search_recipes(&book, &recipe_names, &item_names, "smelt", &shown);
    assert_eq!(found.entries(), &[(9, ())]);
}
