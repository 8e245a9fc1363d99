use vstd::prelude::*;

use crate::amount::{fits, Fl};
use crate::buildings::Building;
use crate::build_spec::recipe_of;
use crate::graph::Node;
use crate::id_map::{has_key, lookup, IdMap};
use crate::ids::ItemId;
use crate::recipe::{checked_per_minute, per_minute, rate, Recipe};

verus! {

/// The width of a drawn node.
pub const NODE_WIDTH: i32 = 100;

/// The smallest height of a drawn node.
pub const MIN_NODE_HEIGHT: i32 = 100;

/// The radius of the circle drawn for an item entering or leaving a node.
pub const IO_CIRCLE_RADIUS: i32 = 16;

/// A node of a production graph, as drawn.
#[derive(Clone, Copy, Debug, PartialEq, Eq, Structural)]
pub struct NodeData(pub Node);

/// The flows per minute of the items of `io` at `per_min` runs per minute.
pub open spec fn io_rates(io: Seq<(usize, Fl)>, per_min: int) -> Seq<(ItemId, Fl)> {
    Seq::new(io.len(), |i: int| (ItemId(io[i].0), Fl(rate(io[i].1, per_min) as i64)))
}

/// Every flow of `io` at `per_min` runs per minute can be stored.
pub open spec fn rates_fit(io: Seq<(usize, Fl)>, per_min: int) -> bool {
    forall|i: int| 0 <= i < io.len() ==> fits(rate((#[trigger] io[i]).1, per_min))
}

/// The flows of the items of `io` for a node running `r` with `amount`
/// buildings; `None` when the run time is zero or a flow cannot be stored.
pub open spec fn recipe_io(r: Recipe, io: Seq<(usize, Fl)>, amount: Fl) -> Option<Seq<(ItemId, Fl)>> {
    let pm = per_minute(r.time, amount);
    if r.time.raw() != 0 && fits(pm) && rates_fit(io, pm) {
        Some(io_rates(io, pm))
    } else {
        None
    }
}

/// The items entering node `n`, with their flows.
pub open spec fn node_inputs(n: Node, book: Seq<(usize, Recipe)>) -> Option<Seq<(ItemId, Fl)>> {
    match n {
        Node::Recipe { rid, amount } => recipe_io(
            recipe_of(book, rid.0),
            recipe_of(book, rid.0).inputs.entry_seq(),
            amount,
        ),
        Node::Output { iid, amount } => Some(seq![(iid, amount)]),
        Node::Excess { iid, amount } => Some(seq![(iid, amount)]),
        Node::Input { .. } => Some(Seq::empty()),
    }
}

/// The items leaving node `n`, with their flows.
pub open spec fn node_outputs(n: Node, book: Seq<(usize, Recipe)>) -> Option<Seq<(ItemId, Fl)>> {
    match n {
        Node::Recipe { rid, amount } => recipe_io(
            recipe_of(book, rid.0),
            recipe_of(book, rid.0).outputs.entry_seq(),
            amount,
        ),
        Node::Input { iid, amount } => Some(seq![(iid, amount)]),
        Node::Output { .. } => Some(Seq::empty()),
        Node::Excess { .. } => Some(Seq::empty()),
    }
}

/// What a drawn node shows entering and leaving it: an input node takes in
/// nothing and hands out its item at its amount; an output or excess node
/// takes in its item at its amount and hands out nothing; a recipe node, when
/// its flows can be computed, lists the items of its recipe in order, each
/// flowing the recipe's quantity per run at the node's runs per minute.
pub proof fn lemma_node_flows(n: Node, book: Seq<(usize, Recipe)>)
    ensures
        n matches Node::Input { iid, amount } ==> node_inputs(n, book) == Some(Seq::<(ItemId, Fl)>::empty())
            && node_outputs(n, book) == Some(seq![(iid, amount)]),
        n matches Node::Output { iid, amount } ==> node_inputs(n, book) == Some(seq![(iid, amount)])
            && node_outputs(n, book) == Some(Seq::<(ItemId, Fl)>::empty()),
        n matches Node::Excess { iid, amount } ==> node_inputs(n, book) == Some(seq![(iid, amount)])
            && node_outputs(n, book) == Some(Seq::<(ItemId, Fl)>::empty()),
        n matches Node::Recipe { rid, amount } ==> {
            let r = recipe_of(book, rid.0);
            let pm = per_minute(r.time, amount);
            &&& node_inputs(n, book) matches Some(v) ==> v.len() == r.inputs.entry_seq().len() && forall|i: int|
                0 <= i < v.len() ==> (#[trigger] v[i]).0 == ItemId(r.inputs.entry_seq()[i].0) && v[i].1.raw()
                    == rate(r.inputs.entry_seq()[i].1, pm)
            &&& node_outputs(n, book) matches Some(v) ==> v.len() == r.outputs.entry_seq().len() && forall|i: int|
                0 <= i < v.len() ==> (#[trigger] v[i]).0 == ItemId(r.outputs.entry_seq()[i].0) && v[i].1.raw()
                    == rate(r.outputs.entry_seq()[i].1, pm)
        },
{
    if let Node::Recipe { rid, amount } = n {
        let r = recipe_of(book, rid.0);
        let pm = per_minute(r.time, amount);
        if let Some(v) = node_inputs(n, book) {
            assert forall|i: int| 0 <= i < v.len() implies (#[trigger] v[i]).0 == ItemId(r.inputs.entry_seq()[i].0)
                && v[i].1.raw() == rate(r.inputs.entry_seq()[i].1, pm) by {
                assert(fits(rate(r.inputs.entry_seq()[i].1, pm)));
            }
        }
        if let Some(v) = node_outputs(n, book) {
            assert forall|i: int| 0 <= i < v.len() implies (#[trigger] v[i]).0 == ItemId(r.outputs.entry_seq()[i].0)
                && v[i].1.raw() == rate(r.outputs.entry_seq()[i].1, pm) by {
                assert(fits(rate(r.outputs.entry_seq()[i].1, pm)));
            }
        }
    }
}

/// Computes `recipe_io(r, io, amount)`.
fn recipe_io_exec(r: &Recipe, io: &[(usize, Fl)], amount: Fl) -> (res: Option<Vec<(ItemId, Fl)>>)
    ensures
        res is Some == recipe_io(*r, io@, amount) is Some,
        res matches Some(v) ==> v@ == recipe_io(*r, io@, amount)->0,
{
    let pm = match checked_per_minute(r.time, amount) {
        Some(p) => p,
        None => {
            return None;
        },
    };
    let mut out: Vec<(ItemId, Fl)> = Vec::new();
    let mut i: usize = 0;
    while i < io.len()
        invariant
            0 <= i <= io.len(),
            pm.raw() == per_minute(r.time, amount),
            r.time.raw() != 0,
            out@ == io_rates(io@.take(i as int), pm.raw()),
            forall|j: int| 0 <= j < i ==> fits(rate((#[trigger] io@[j]).1, pm.raw())),
        decreases io.len() - i,
    {
        let (iid, q) = io[i];
        match q.checked_mul(pm) {
            Some(x) => {
                out.push((ItemId(iid), x));
                proof {
                    assert(io_rates(io@.take(i + 1), pm.raw()) =~= io_rates(io@.take(i as int), pm.raw()).push((ItemId(iid), x)));
                }
            },
            None => {
                assert(!fits(rate(io@[i as int].1, pm.raw())));
                return None;
            },
        }
        i += 1;
    }
    proof {
        assert(io@.take(i as int) == io@);
    }
    Some(out)
}

impl NodeData {
    /// A key telling the drawn nodes apart: the identifier of the recipe or
    /// item, and the kind of node.
    pub fn to_key(self) -> (res: (usize, usize))
        ensures
            res == (match self.0 {
                Node::Recipe { rid, .. } => (rid.0, 0usize),
                Node::Input { iid, .. } => (iid.0, 1usize),
                Node::Output { iid, .. } => (iid.0, 2usize),
                Node::Excess { iid, .. } => (iid.0, 3usize),
            }),
    {
        match self.0 {
            Node::Recipe { rid, amount: _ } => (rid.0, 0),
            Node::Input { iid, amount: _ } => (iid.0, 1),
            Node::Output { iid, amount: _ } => (iid.0, 2),
            Node::Excess { iid, amount: _ } => (iid.0, 3),
        }
    }

    /// The amount of the node: buildings for a recipe, items per minute
    /// otherwise.
    pub fn amount(self) -> (res: Fl)
        ensures
            res == (match self.0 {
                Node::Recipe { amount, .. } => amount,
                Node::Input { amount, .. } => amount,
                Node::Output { amount, .. } => amount,
                Node::Excess { amount, .. } => amount,
            }),
    {
        match self.0 {
            Node::Recipe { amount, .. } => amount,
            Node::Input { amount, .. } => amount,
            Node::Output { amount, .. } => amount,
            Node::Excess { amount, .. } => amount,
        }
    }

    /// The items entering the node, with their flows; `None` when the node
    /// runs a recipe whose run time is zero or whose flows cannot be stored.
    pub fn inputs(self, recipes: &IdMap<Recipe>) -> (res: Option<Vec<(ItemId, Fl)>>)
        requires
            self.0 is Recipe ==> has_key(recipes.entry_seq(), self.0->rid.0),
        ensures
            res is Some == node_inputs(self.0, recipes.entry_seq()) is Some,
            res matches Some(v) ==> v@ == node_inputs(self.0, recipes.entry_seq())->0,
    {
        match self.0 {
            Node::Recipe { rid, amount } => {
                let r = recipes.get(rid.0).unwrap();
                recipe_io_exec(r, r.inputs.entries(), amount)
            },
            Node::Output { iid, amount } => Some(vec![(iid, amount)]),
            Node::Excess { iid, amount } => Some(vec![(iid, amount)]),
            Node::Input { .. } => Some(Vec::new()),
        }
    }

    /// The items leaving the node, with their flows; `None` when the node
    /// runs a recipe whose run time is zero or whose flows cannot be stored.
    pub fn outputs(self, recipes: &IdMap<Recipe>) -> (res: Option<Vec<(ItemId, Fl)>>)
        requires
            self.0 is Recipe ==> has_key(recipes.entry_seq(), self.0->rid.0),
        ensures
            res is Some == node_outputs(self.0, recipes.entry_seq()) is Some,
            res matches Some(v) ==> v@ == node_outputs(self.0, recipes.entry_seq())->0,
    {
        match self.0 {
            Node::Recipe { rid, amount } => {
                let r = recipes.get(rid.0).unwrap();
                recipe_io_exec(r, r.outputs.entries(), amount)
            },
            Node::Input { iid, amount } => Some(vec![(iid, amount)]),
            Node::Output { .. } => Some(Vec::new()),
            Node::Excess { .. } => Some(Vec::new()),
        }
    }
}

/// The height of a drawn node with `size` rows of items.
pub open spec fn node_height(size: int) -> int {
    if 50 * (size + 1) >= 100 {
        50 * (size + 1)
    } else {
        100
    }
}

/// The vertical offset, in a node with `size` rows, of item `idx` among
/// `count` items: the items are spread evenly over the node's height.
pub open spec fn io_y_offset(idx: int, count: int, size: int) -> int {
    (node_height(size) / (count + 1)) * (1 + idx)
}

/// The height of a drawn node with `size` rows of items.
pub fn compute_node_height(size: i32) -> (res: i32)
    requires
        i32::MIN <= 50 * (size + 1) <= i32::MAX,
    ensures
        res == node_height(size as int),
{
    let h = (MIN_NODE_HEIGHT / 2) * (size + 1);
    if h >= MIN_NODE_HEIGHT {
        h
    } else {
        MIN_NODE_HEIGHT
    }
}

/// The vertical offset of item `idx` among `io_count` items entering or
/// leaving a node with `size` rows.
pub fn compute_io_y_offset(idx: usize, io_count: usize, size: i32) -> (res: i32)
    requires
        i32::MIN <= 50 * (size + 1) <= i32::MAX,
        io_count < i32::MAX,
        idx < i32::MAX,
        io_y_offset(idx as int, io_count as int, size as int) <= i32::MAX,
    ensures
        res == io_y_offset(idx as int, io_count as int, size as int),
{
    let parent_height = compute_node_height(size);
    let count: i32 = (io_count + 1) as i32;
    let increment = parent_height / count;
    let factor: i32 = 1 + idx as i32;
    assert(increment >= 0);
    assert(0 <= increment * factor) by (nonlinear_arith)
        requires
            increment >= 0,
            factor >= 1,
    ;
    increment * factor
}

/// The index of the first entry of `io` for item `iid`.
pub open spec fn io_position(io: Seq<(ItemId, Fl)>, iid: ItemId) -> int {
    choose|i: int| 0 <= i < io.len() && io[i].0 == iid && forall|j: int| 0 <= j < i ==> (#[trigger] io[j]).0 != iid
}

/// The items an edge meets a node among: those leaving it when `input` is
/// true (the edge starts there), those entering it otherwise.
pub open spec fn chosen_io(inputs: Seq<(ItemId, Fl)>, outputs: Seq<(ItemId, Fl)>, input: bool) -> Seq<(ItemId, Fl)> {
    if input {
        outputs
    } else {
        inputs
    }
}

/// Where an edge carrying item `iid` meets a drawn node with `size` rows,
/// relative to the node's corner: on the right, among the items leaving the
/// node, when `input` is true (the edge starts there), on the left among the
/// items entering it otherwise.
pub fn compute_offset(
    inputs: &[(ItemId, Fl)],
    outputs: &[(ItemId, Fl)],
    size: i32,
    iid: ItemId,
    input: bool,
) -> (res: (i32, i32))
    requires
        i32::MIN <= 50 * (size + 1) <= i32::MAX,
        exists|i: int|
            0 <= i < chosen_io(inputs@, outputs@, input).len() && (#[trigger] chosen_io(inputs@, outputs@, input)[i]).0 == iid,
        chosen_io(inputs@, outputs@, input).len() < i32::MAX,
        io_y_offset(
            chosen_io(inputs@, outputs@, input).len() as int,
            chosen_io(inputs@, outputs@, input).len() as int,
            size as int,
        ) <= i32::MAX,
    ensures
        res.0 == (if input {
            NODE_WIDTH + IO_CIRCLE_RADIUS
        } else {
            -IO_CIRCLE_RADIUS - 12
        }),
        res.1 == io_y_offset(
            io_position(chosen_io(inputs@, outputs@, input), iid),
            chosen_io(inputs@, outputs@, input).len() as int,
            size as int,
        ),
{
    let io = if input {
        outputs
    } else {
        inputs
    };
    assert(io@ == chosen_io(inputs@, outputs@, input));
    let mut pos: usize = 0;
    while pos < io.len() && io[pos].0 != iid
        invariant
            0 <= pos <= io.len(),
            forall|j: int| 0 <= j < pos ==> (#[trigger] io@[j]).0 != iid,
            exists|i: int| 0 <= i < io@.len() && (#[trigger] io@[i]).0 == iid,
        decreases io.len() - pos,
    {
        pos += 1;
    }
    proof {
        if pos == io.len() {
            let i = choose|i: int| 0 <= i < io@.len() && (#[trigger] io@[i]).0 == iid;
            assert(io@[i].0 != iid);
        }
        let p = io_position(io@, iid);
        assert(0 <= p < io@.len() && io@[p].0 == iid && forall|j: int| 0 <= j < p ==> (#[trigger] io@[j]).0 != iid);
        if p < pos {
            assert(io@[p].0 != iid);
        }
        if pos < p {
            assert(io@[pos as int].0 != iid);
        }
        let h = node_height(size as int) / (io@.len() as int + 1);
        assert(h >= 0) by (nonlinear_arith)
            requires
                node_height(size as int) >= 100,
                io@.len() >= 0,
                h == node_height(size as int) / (io@.len() as int + 1),
        ;
        assert(h * (1 + pos) <= h * (1 + io@.len())) by (nonlinear_arith)
            requires
                h >= 0,
                pos <= io@.len(),
        ;
    }
    let y = compute_io_y_offset(pos, io.len(), size);
    let x = if input {
        NODE_WIDTH + IO_CIRCLE_RADIUS
    } else {
        -IO_CIRCLE_RADIUS - 12
    };
    (x, y)
}

/// The number of rows of a drawn node: the larger of the numbers of items
/// entering and leaving a recipe, one for the other nodes.
pub fn node_size(node: Node, recipes: &IdMap<Recipe>) -> (res: i32)
    requires
        node is Recipe ==> has_key(recipes.entry_seq(), node->rid.0),
        node is Recipe ==> recipe_of(recipes.entry_seq(), node->rid.0).inputs.entry_seq().len() <= i32::MAX,
        node is Recipe ==> recipe_of(recipes.entry_seq(), node->rid.0).outputs.entry_seq().len() <= i32::MAX,
    ensures
        res == (match node {
            Node::Recipe { rid, .. } => {
                let r = recipe_of(recipes.entry_seq(), rid.0);
                if r.inputs.entry_seq().len() >= r.outputs.entry_seq().len() {
                    r.inputs.entry_seq().len() as int
                } else {
                    r.outputs.entry_seq().len() as int
                }
            },
            _ => 1int,
        }),
{
    match node {
        Node::Recipe { rid, .. } => {
            let r = recipes.get(rid.0).unwrap();
            let a = r.inputs.len();
            let b = r.outputs.len();
            if a >= b {
                a as i32
            } else {
                b as i32
            }
        },
        _ => 1,
    }
}

/// The address of the large icon `icon`, under `base_url`.
pub fn format_icon_href(base_url: &str, icon: &str) -> (res: String)
    ensures
        res@ == base_url@ + "assets/items/"@ + icon@ + "_256.png"@,
{
    let mut s = String::from_str(base_url);
    s.append("assets/items/");
    s.append(icon);
    s.append("_256.png");
    s
}

/// The address of the small icon `icon`, under `base_url`.
pub fn format_small_icon_href(base_url: &str, icon: &str) -> (res: String)
    ensures
        res@ == base_url@ + "assets/items/"@ + icon@ + "_64.png"@,
{
    let mut s = String::from_str(base_url);
    s.append("assets/items/");
    s.append(icon);
    s.append("_64.png");
    s
}

/// The icon of node `n`: that of the building running the recipe, or that of
/// the item.
pub open spec fn node_icon(
    n: Node,
    book: Seq<(usize, Recipe)>,
    buildings: Seq<(usize, Building)>,
    item_icons: Seq<(usize, String)>,
) -> Seq<char> {
    match n {
        Node::Recipe { rid, .. } => (lookup(buildings, recipe_of(book, rid.0).building.0)->0).icon@,
        Node::Input { iid, .. } => (lookup(item_icons, iid.0)->0)@,
        Node::Output { iid, .. } => (lookup(item_icons, iid.0)->0)@,
        Node::Excess { iid, .. } => (lookup(item_icons, iid.0)->0)@,
    }
}

impl NodeData {
    /// The address of the node's icon, under `base_url`.
    pub fn icon_href(
        self,
        base_url: &str,
        recipes: &IdMap<Recipe>,
        buildings: &IdMap<Building>,
        item_icons: &IdMap<String>,
    ) -> (res: String)
        requires
            self.0 is Recipe ==> has_key(recipes.entry_seq(), self.0->rid.0) && has_key(
                buildings.entry_seq(),
                recipe_of(recipes.entry_seq(), self.0->rid.0).building.0,
            ),
            !(self.0 is Recipe) ==> has_key(item_icons.entry_seq(), (match self.0 {
                Node::Input { iid, .. } => iid,
                Node::Output { iid, .. } => iid,
                Node::Excess { iid, .. } => iid,
                Node::Recipe { .. } => ItemId(0),
            }).0),
        ensures
            res@ == base_url@ + "assets/items/"@ + node_icon(
                self.0,
                recipes.entry_seq(),
                buildings.entry_seq(),
                item_icons.entry_seq(),
            ) + "_256.png"@,
    {
        let icon: &String = match self.0 {
            Node::Recipe { rid, .. } => {
                let recipe = recipes.get(rid.0).unwrap();
                let building = buildings.get(recipe.building.0).unwrap();
                &building.icon
            },
            Node::Excess { iid, .. } => item_icons.get(iid.0).unwrap(),
            Node::Input { iid, .. } => item_icons.get(iid.0).unwrap(),
            Node::Output { iid, .. } => item_icons.get(iid.0).unwrap(),
        };
        format_icon_href(base_url, icon.as_str())
    }
}

} // verus!
