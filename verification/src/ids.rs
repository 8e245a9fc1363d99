use vstd::prelude::*;

verus! {

/// Identifier of an item (a resource, an intermediate product or a final product).
#[derive(Clone, Copy, Debug, PartialEq, Eq, Structural, Hash, PartialOrd, Ord)]
pub struct ItemId(pub usize);

/// Identifier of a recipe.
#[derive(Clone, Copy, Debug, PartialEq, Eq, Structural, Hash, PartialOrd, Ord)]
pub struct RecipeId(pub usize);

/// Identifier of a building in which recipes are run.
#[derive(Clone, Copy, Debug, PartialEq, Eq, Structural, Hash, PartialOrd, Ord)]
pub struct BuildingId(pub usize);

} // verus!
