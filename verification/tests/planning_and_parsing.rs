use solver::amount::Fl;
use solver::buildings::{group_recipes, Building, Buildings};
use solver::cycles::cycle_removal;
use solver::graph::Node;
use solver::id_map::IdMap;
use solver::ids::{BuildingId, ItemId, RecipeId};
use solver::interner::Interner;
use solver::plan::{check_recipes, is_handled, plan_targets, Error};
use solver::recipe::{Recipe, Target};
use solver::utils::ArcIter;
use std::sync::Arc;

fn recipe_in(building: usize, inputs: Vec<(usize, i64)>, outputs: Vec<(usize, i64)>) -> Recipe {
    let mut ins = IdMap::new();
    for (k, v) in inputs {
        ins.insert(k, Fl(v));
    }
    let mut outs = IdMap::new();
    for (k, v) in outputs {
        outs.insert(k, Fl(v));
    }
    Recipe { inputs: ins, outputs: outs, time: Fl(10000), building: BuildingId(building) }
}

#[test]
fn no_target_is_an_error() {
    assert!(matches!(plan_targets(&[]), Err(Error::NoTarget)));
}

#[test]
fn targets_are_split() {
    let targets = [
        Target { iid: ItemId(1), qty: Some(Fl(50000)) },
        Target { iid: ItemId(2), qty: None },
        Target { iid: ItemId(1), qty: Some(Fl(70000)) },
        Target { iid: ItemId(0), qty: Some(Fl(10000)) },
    ];
    let (set, maximize) = plan_targets(&targets).unwrap();
    assert_eq!(set.entries(), &[(0, Fl(10000)), (1, Fl(70000))]);
    assert_eq!(maximize, vec![ItemId(2)]);
}

#[test]
fn items_without_recipe_are_reported() {
    let mut book = IdMap::new();
    book.insert(0, recipe_in(0, vec![(0, 10000)], vec![(1, 10000)]));
    book.insert(1, recipe_in(0, vec![(1, 30000)], vec![(2, 20000)]));
    assert!(is_handled(&book, ItemId(0)));
    assert!(is_handled(&book, ItemId(2)));
    assert!(!is_handled(&book, ItemId(9)));
    assert_eq!(check_recipes(&book, &[ItemId(2), ItemId(0)]), Ok(()));
    assert_eq!(
        check_recipes(&book, &[ItemId(2), ItemId(9), ItemId(8)]),
        Err(Error::NoRecipe(ItemId(9)))
    );
}

#[test]
fn names_get_identifiers_in_order() {
    let mut names = Interner::new();
    assert_eq!(names.intern(String::from("Desc_OreIron_C")), 0);
    assert_eq!(names.intern(String::from("Desc_Coal_C")), 1);
    assert_eq!(names.intern(String::from("Desc_OreIron_C")), 0);
    assert_eq!(names.intern(String::from("Desc_Water_C")), 2);
    assert_eq!(names.len(), 3);
}

#[test]
fn recipes_grouped_by_building() {
    let mut book = IdMap::new();
    book.insert(2, recipe_in(1, vec![], vec![(0, 10000)]));
    book.insert(0, recipe_in(1, vec![], vec![(1, 10000)]));
    book.insert(1, recipe_in(0, vec![], vec![(2, 10000)]));
    let groups = group_recipes(&book);
    assert_eq!(
        groups.entries(),
        &[(0, vec![RecipeId(1)]), (1, vec![RecipeId(0), RecipeId(2)])]
    );
    let mut buildings = IdMap::new();
    buildings.insert(
        1,
        Building {
            id: BuildingId(1),
            slug: String::from("constructor"),
            name: String::from("Constructor"),
            icon: String::from("constructor"),
            description: String::from("Crafts one part into another."),
        },
    );
    let all = Buildings::new(buildings, &book);
    assert_eq!(all.buildings.len(), 1);
    assert_eq!(all.recipes.get(1), Some(&vec![RecipeId(0), RecipeId(2)]));
    assert_eq!(all.recipes.get(5), None);
}

#[test]
fn cycle_links_are_cut() {
    let nodes = [
        Node::Output { iid: ItemId(0), amount: Fl(1) },
        Node::Recipe { rid: RecipeId(0), amount: Fl(1) },
        Node::Recipe { rid: RecipeId(1), amount: Fl(1) },
    ];
    let mut parents = vec![vec![1], vec![2], vec![1]];
    let cycles = cycle_removal(&nodes, &mut parents);
    assert_eq!(cycles, vec![vec![], vec![], vec![1]]);
    assert_eq!(parents, vec![vec![1], vec![2], vec![]]);
}

#[test]
fn self_links_are_dropped_without_record() {
    let nodes = [
        Node::Output { iid: ItemId(0), amount: Fl(1) },
        Node::Recipe { rid: RecipeId(0), amount: Fl(1) },
    ];
    let mut parents = vec![vec![1], vec![1]];
    let cycles = cycle_removal(&nodes, &mut parents);
    assert_eq!(cycles, vec![Vec::<usize>::new(), vec![]]);
    assert_eq!(parents, vec![vec![1], vec![]]);
}

#[test]
fn arc_iter_hands_out_each_item() {
    let mut it = ArcIter::new(Arc::new(vec![1, 2, 3]));
    assert_eq!(it.next(), Some(1));
    assert_eq!(it.next(), Some(2));
    assert_eq!(it.next(), Some(3));
    assert_eq!(it.next(), None);
    assert_eq!(it.next(), None);
}
