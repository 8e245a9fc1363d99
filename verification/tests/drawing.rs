use solver::amount::Fl;
use solver::buildings::Building;
use solver::graph::Node;
use solver::id_map::IdMap;
use solver::ids::{BuildingId, ItemId, RecipeId};
use solver::recipe::Recipe;
use solver::render::{
    compute_io_y_offset, compute_node_height, compute_offset, format_icon_href,
    format_small_icon_href, node_size, NodeData,
};

fn plate_book() -> IdMap<Recipe> {
    let mut ins = IdMap::new();
    ins.insert(1, Fl(30000));
    let mut outs = IdMap::new();
    outs.insert(2, Fl(20000));
    let mut book = IdMap::new();
    book.insert(1, Recipe { inputs: ins, outputs: outs, time: Fl(60000), building: BuildingId(4) });
    book
}

#[test]
fn node_keys() {
    assert_eq!(NodeData(Node::Recipe { rid: RecipeId(3), amount: Fl(1) }).to_key(), (3, 0));
    assert_eq!(NodeData(Node::Input { iid: ItemId(3), amount: Fl(1) }).to_key(), (3, 1));
    assert_eq!(NodeData(Node::Output { iid: ItemId(3), amount: Fl(1) }).to_key(), (3, 2));
    assert_eq!(NodeData(Node::Excess { iid: ItemId(3), amount: Fl(1) }).to_key(), (3, 3));
    assert_eq!(NodeData(Node::Excess { iid: ItemId(3), amount: Fl(7) }).amount(), Fl(7));
}

#[test]
fn recipe_node_flows() {
    let book = plate_book();
    let node = NodeData(Node::Recipe { rid: RecipeId(1), amount: Fl(17500) });
    // 1.75 buildings: 17.5 runs per minute, 52.5 ingots in, 35 plates out
    assert_eq!(node.inputs(&book), Some(vec![(ItemId(1), Fl(525000))]));
    assert_eq!(node.outputs(&book), Some(vec![(ItemId(2), Fl(350000))]));
    let input = NodeData(Node::Input { iid: ItemId(0), amount: Fl(5) });
    assert_eq!(input.inputs(&book), Some(vec![]));
    assert_eq!(input.outputs(&book), Some(vec![(ItemId(0), Fl(5))]));
    let output = NodeData(Node::Output { iid: ItemId(2), amount: Fl(5) });
    assert_eq!(output.inputs(&book), Some(vec![(ItemId(2), Fl(5))]));
    assert_eq!(output.outputs(&book), Some(vec![]));
    let huge = NodeData(Node::Recipe { rid: RecipeId(1), amount: Fl(i64::MAX) });
    assert_eq!(huge.inputs(&book), None);
}

#[test]
fn node_heights_and_offsets() {
    assert_eq!(compute_node_height(0), 100);
    assert_eq!(compute_node_height(1), 100);
    assert_eq!(compute_node_height(3), 200);
    assert_eq!(compute_io_y_offset(0, 2, 3), 66);
    assert_eq!(compute_io_y_offset(1, 2, 3), 132);
    assert_eq!(compute_io_y_offset(0, 1, 1), 50);
}

#[test]
fn edge_ends_on_nodes() {
    let inputs = [(ItemId(0), Fl(1))];
    let outputs = [(ItemId(1), Fl(1)), (ItemId(2), Fl(1))];
    assert_eq!(compute_offset(&inputs, &outputs, 3, ItemId(2), true), (116, 132));
    assert_eq!(compute_offset(&inputs, &outputs, 3, ItemId(0), false), (-28, 100));
}

#[test]
fn node_sizes() {
    let book = plate_book();
    assert_eq!(node_size(Node::Recipe { rid: RecipeId(1), amount: Fl(1) }, &book), 1);
    assert_eq!(node_size(Node::Output { iid: ItemId(1), amount: Fl(1) }, &book), 1);
}

#[test]
fn icon_addresses() {
    assert_eq!(format_icon_href("/", "iron-plate"), "/assets/items/iron-plate_256.png");
    assert_eq!(format_small_icon_href("/app/", "iron-plate"), "/app/assets/items/iron-plate_64.png");
    let book = plate_book();
    let mut buildings = IdMap::new();
    buildings.insert(
        4,
        Building {
            id: BuildingId(4),
            slug: String::from("constructor"),
            name: String::from("Constructor"),
            icon: String::from("constructor"),
            description: String::new(),
        },
    );
    let mut icons = IdMap::new();
    icons.insert(2, String::from("iron-plate"));
    let recipe = NodeData(Node::Recipe { rid: RecipeId(1), amount: Fl(1) });
    assert_eq!(recipe.icon_href("/", &book, &buildings, &icons), "/assets/items/constructor_256.png");
    let output = NodeData(Node::Output { iid: ItemId(2), amount: Fl(1) });
    assert_eq!(output.icon_href("/", &book, &buildings, &icons), "/assets/items/iron-plate_256.png");
}
