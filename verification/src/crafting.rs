//! Crafting recipes and their all-or-nothing application.

use vstd::prelude::*;

use crate::block::Block;
use crate::inventory::{
    add_to_all, amount, law_take_spends_exactly, spec_add_to_all, spec_take_from_all, take_from_all,
    total_count, BlockInventory, Hotbar, Slot,
};

verus! {

/// A recipe: every input is consumed, the output is produced.
pub struct Recipe {
    pub name: &'static str,
    pub inputs: Vec<(Block, u32)>,
    pub output: (Block, u32),
}

/// Number of recipes.
pub const RECIPE_COUNT: usize = 6;

/// Inputs of the recipe at index `i`.
pub open spec fn spec_recipe_inputs(i: int) -> Seq<(Block, u32)> {
    if i == 0 {
        seq![(Block::Wood, 1u32)]
    } else if i == 1 {
        seq![(Block::Planks, 4u32)]
    } else if i == 2 {
        seq![(Block::Snow, 4u32)]
    } else if i == 3 {
        seq![(Block::Sand, 2u32), (Block::Stone, 1u32)]
    } else if i == 4 {
        seq![(Block::Dirt, 4u32), (Block::Leaves, 1u32)]
    } else {
        seq![(Block::Stone, 4u32)]
    }
}

/// Output of the recipe at index `i`.
pub open spec fn spec_recipe_output(i: int) -> (Block, u32) {
    if i == 0 {
        (Block::Planks, 4u32)
    } else if i == 1 {
        (Block::Wood, 1u32)
    } else if i == 2 {
        (Block::Ice, 1u32)
    } else if i == 3 {
        (Block::Ice, 2u32)
    } else if i == 4 {
        (Block::Grass, 4u32)
    } else {
        (Block::Stone, 4u32)
    }
}

/// The recipes, in the order the crafting screen lists them.
pub fn recipes() -> (r: Vec<Recipe>)
    ensures
        r.len() == RECIPE_COUNT,
        forall|i: int| 0 <= i < RECIPE_COUNT ==> (#[trigger] r@[i]).inputs@ == spec_recipe_inputs(i),
        forall|i: int| 0 <= i < RECIPE_COUNT ==> (#[trigger] r@[i]).output == spec_recipe_output(i),
        r@[0].name@ == "Planches"@,
        r@[1].name@ == "Bois comprime"@,
        r@[2].name@ == "Bloc de glace"@,
        r@[3].name@ == "Sable vitrifie"@,
        r@[4].name@ == "Herbe"@,
        r@[5].name@ == "Pierre taillee"@,
{
    let r = vec![
        Recipe { name: "Planches", inputs: vec![(Block::Wood, 1u32)], output: (Block::Planks, 4u32) },
        Recipe { name: "Bois comprime", inputs: vec![(Block::Planks, 4u32)], output: (Block::Wood, 1u32) },
        Recipe { name: "Bloc de glace", inputs: vec![(Block::Snow, 4u32)], output: (Block::Ice, 1u32) },
        Recipe {
            name: "Sable vitrifie",
            inputs: vec![(Block::Sand, 2u32), (Block::Stone, 1u32)],
            output: (Block::Ice, 2u32),
        },
        Recipe {
            name: "Herbe",
            inputs: vec![(Block::Dirt, 4u32), (Block::Leaves, 1u32)],
            output: (Block::Grass, 4u32),
        },
        Recipe { name: "Pierre taillee", inputs: vec![(Block::Stone, 4u32)], output: (Block::Stone, 4u32) },
    ];
    proof {
        assert(r@[0].inputs@ =~= spec_recipe_inputs(0));
        assert(r@[1].inputs@ =~= spec_recipe_inputs(1));
        assert(r@[2].inputs@ =~= spec_recipe_inputs(2));
        assert(r@[3].inputs@ =~= spec_recipe_inputs(3));
        assert(r@[4].inputs@ =~= spec_recipe_inputs(4));
        assert(r@[5].inputs@ =~= spec_recipe_inputs(5));
    }
    r
}


/// The hotbar and backpack together hold at least the input's quantity.
pub open spec fn enough(hb: Seq<Slot>, bp: Seq<Slot>, input: (Block, u32)) -> bool {
    amount(hb, input.0) + amount(bp, input.0) >= input.1
}

/// Every input of the list is available.
pub open spec fn craftable(hb: Seq<Slot>, bp: Seq<Slot>, inputs: Seq<(Block, u32)>) -> bool {
    forall|j: int| 0 <= j < inputs.len() ==> enough(hb, bp, #[trigger] inputs[j])
}

/// Checking the inputs in order, stopping at the first missing one, only
/// ever counts totals that fit in a `u32`.
pub open spec fn checkable(hb: Seq<Slot>, bp: Seq<Slot>, inputs: Seq<(Block, u32)>) -> bool {
    forall|j: int|
        0 <= j < inputs.len() ==> (forall|k: int| 0 <= k < j ==> enough(hb, bp, #[trigger] inputs[k]))
            ==> amount(hb, (#[trigger] inputs[j]).0) + amount(bp, inputs[j].0) <= u32::MAX
}

/// Spends the inputs one after the other; an input that is not available
/// at its turn is skipped.
pub open spec fn spend_inputs(hb: Seq<Slot>, bp: Seq<Slot>, inputs: Seq<(Block, u32)>) -> (Seq<Slot>, Seq<Slot>)
    decreases inputs.len(),
{
    if inputs.len() == 0 {
        (hb, bp)
    } else {
        let p = spend_inputs(hb, bp, inputs.drop_last());
        let b = inputs.last().0;
        let n = inputs.last().1;
        if amount(p.0, b) + amount(p.1, b) < n {
            p
        } else {
            spec_take_from_all(p.0, p.1, b, n as nat)
        }
    }
}

/// Hotbar and backpack after a craft request for recipe `i`: unchanged when
/// there is no such recipe or an input is missing; otherwise the inputs are
/// spent and the output is stored like picked-up blocks.
pub open spec fn spec_apply_craft(hb: Seq<Slot>, bp: Seq<Slot>, i: int) -> (Seq<Slot>, Seq<Slot>) {
    if i < 0 || i >= RECIPE_COUNT || !craftable(hb, bp, spec_recipe_inputs(i)) {
        (hb, bp)
    } else {
        let p = spend_inputs(hb, bp, spec_recipe_inputs(i));
        let o = spec_recipe_output(i);
        let r = spec_add_to_all(p.0, p.1, o.0, o.1 as nat);
        (r.0, r.1)
    }
}

/// Whether every input of the recipe is held (hotbar and backpack
/// together); the crafting screen greys out the others.
pub fn can_craft(inv: &BlockInventory, hotbar: &Hotbar, recipe: &Recipe) -> (r: bool)
    requires
        checkable(hotbar.slots@, inv.backpack@, recipe.inputs@),
    ensures
        r == craftable(hotbar.slots@, inv.backpack@, recipe.inputs@),
{
    let mut j: usize = 0;
    while j < recipe.inputs.len()
        invariant
            j <= recipe.inputs.len(),
            checkable(hotbar.slots@, inv.backpack@, recipe.inputs@),
            forall|k: int| 0 <= k < j ==> enough(hotbar.slots@, inv.backpack@, #[trigger] recipe.inputs@[k]),
        decreases recipe.inputs.len() - j,
    {
        let (b, n) = recipe.inputs[j];
        assert(amount(hotbar.slots@, recipe.inputs@[j as int].0) + amount(inv.backpack@, recipe.inputs@[j as int].0) <= u32::MAX);
        if total_count(inv, hotbar, b) < n {
            return false;
        }
        j = j + 1;
    }
    true
}

/// Total quantity of kind `b` that a list of inputs asks for.
pub open spec fn need(inputs: Seq<(Block, u32)>, b: Block) -> nat
    decreases inputs.len(),
{
    if inputs.len() == 0 {
        0
    } else {
        need(inputs.drop_last(), b) + if inputs.last().0 == b { inputs.last().1 as nat } else { 0 }
    }
}

/// No kind of block is asked for twice.
pub open spec fn distinct_kinds(inputs: Seq<(Block, u32)>) -> bool {
    forall|j: int, k: int| 0 <= j < inputs.len() && 0 <= k < inputs.len() && j != k ==> (#[trigger] inputs[j]).0 != (#[trigger] inputs[k]).0
}

pub proof fn lemma_need_absent(inputs: Seq<(Block, u32)>, b: Block)
    requires
        forall|j: int| 0 <= j < inputs.len() ==> (#[trigger] inputs[j]).0 != b,
    ensures
        need(inputs, b) == 0,
    decreases inputs.len(),
{
    if inputs.len() > 0 {
        lemma_need_absent(inputs.drop_last(), b);
    }
}

/// Spending the inputs of a craftable list of distinct kinds removes exactly
/// what the list asks for, kind by kind.
pub proof fn law_spend_inputs_exactly(hb: Seq<Slot>, bp: Seq<Slot>, inputs: Seq<(Block, u32)>)
    requires
        craftable(hb, bp, inputs),
        distinct_kinds(inputs),
    ensures
        forall|b: Block|
            #![trigger amount(spend_inputs(hb, bp, inputs).0, b)]
            amount(spend_inputs(hb, bp, inputs).0, b) + amount(spend_inputs(hb, bp, inputs).1, b) + need(inputs, b)
                == amount(hb, b) + amount(bp, b),
    decreases inputs.len(),
{
    if inputs.len() > 0 {
        let init = inputs.drop_last();
        assert forall|j: int| 0 <= j < init.len() implies enough(hb, bp, #[trigger] init[j]) by {
            assert(init[j] == inputs[j]);
        }
        assert forall|j: int, k: int| 0 <= j < init.len() && 0 <= k < init.len() && j != k implies (#[trigger] init[j]).0 != (#[trigger] init[k]).0 by {
            assert(init[j] == inputs[j]);
            assert(init[k] == inputs[k]);
        }
        law_spend_inputs_exactly(hb, bp, init);
        let p = spend_inputs(hb, bp, init);
        let b = inputs.last().0;
        let n = inputs.last().1;
        assert forall|j: int| 0 <= j < init.len() implies (#[trigger] init[j]).0 != b by {
            assert(init[j] == inputs[j]);
            assert(inputs[j].0 != inputs[inputs.len() - 1].0);
        }
        lemma_need_absent(init, b);
        assert(amount(p.0, b) + amount(p.1, b) == amount(hb, b) + amount(bp, b));
        assert(enough(hb, bp, inputs[inputs.len() - 1]));
        law_take_spends_exactly(p.0, p.1, b, n as nat);
        assert forall|b2: Block|
            #![trigger amount(spend_inputs(hb, bp, inputs).0, b2)]
            amount(spend_inputs(hb, bp, inputs).0, b2) + amount(spend_inputs(hb, bp, inputs).1, b2) + need(inputs, b2)
                == amount(hb, b2) + amount(bp, b2) by {
            assert(amount(p.0, b2) + amount(p.1, b2) + need(init, b2) == amount(hb, b2) + amount(bp, b2));
        }
    }
}

/// Every recipe asks for distinct kinds of blocks.
pub proof fn lemma_recipes_distinct(i: int)
    requires
        0 <= i < RECIPE_COUNT,
    ensures
        distinct_kinds(spec_recipe_inputs(i)),
{
}

/// Before spending input `j` of a craftable list of distinct kinds, the
/// earlier inputs have not touched its kind.
pub proof fn lemma_spend_prefix(hb: Seq<Slot>, bp: Seq<Slot>, inputs: Seq<(Block, u32)>, j: int)
    requires
        craftable(hb, bp, inputs),
        distinct_kinds(inputs),
        0 <= j < inputs.len(),
    ensures
        amount(spend_inputs(hb, bp, inputs.take(j)).0, inputs[j].0) + amount(spend_inputs(hb, bp, inputs.take(j)).1, inputs[j].0)
            == amount(hb, inputs[j].0) + amount(bp, inputs[j].0),
        enough(hb, bp, inputs[j]),
        inputs.take(j + 1).drop_last() == inputs.take(j),
        inputs.take(j + 1).last() == inputs[j],
{
    let pre = inputs.take(j);
    let b = inputs[j].0;
    assert forall|k: int| 0 <= k < pre.len() implies enough(hb, bp, #[trigger] pre[k]) by {
        assert(pre[k] == inputs[k]);
    }
    assert forall|k: int, l: int| 0 <= k < pre.len() && 0 <= l < pre.len() && k != l implies (#[trigger] pre[k]).0 != (#[trigger] pre[l]).0 by {
        assert(pre[k] == inputs[k]);
        assert(pre[l] == inputs[l]);
    }
    law_spend_inputs_exactly(hb, bp, pre);
    assert forall|k: int| 0 <= k < pre.len() implies (#[trigger] pre[k]).0 != b by {
        assert(pre[k] == inputs[k]);
    }
    lemma_need_absent(pre, b);
    assert(amount(spend_inputs(hb, bp, pre).0, b) + amount(spend_inputs(hb, bp, pre).1, b) + need(pre, b)
        == amount(hb, b) + amount(bp, b));
    assert(inputs.take(j + 1).drop_last() =~= pre);
}

/// A craft request for a recipe one of whose inputs is held, hotbar and
/// backpack together, in a smaller quantity than the recipe asks for
/// changes nothing.
pub proof fn law_craft_needs_every_input(hb: Seq<Slot>, bp: Seq<Slot>, i: int, k: int)
    requires
        0 <= i < RECIPE_COUNT,
        0 <= k < spec_recipe_inputs(i).len(),
        amount(hb, spec_recipe_inputs(i)[k].0) + amount(bp, spec_recipe_inputs(i)[k].0) < spec_recipe_inputs(i)[k].1,
    ensures
        spec_apply_craft(hb, bp, i) == (hb, bp),
{
    assert(!enough(hb, bp, spec_recipe_inputs(i)[k]));
}

/// A craft request for a recipe whose every input is held, hotbar and
/// backpack together, spends exactly what the recipe asks for: every kind
/// other than the output loses exactly its quantity in the recipe, and the
/// output kind loses its quantity in the recipe and gains at most the
/// recipe's output.
pub proof fn law_craft_spends_its_inputs(hb: Seq<Slot>, bp: Seq<Slot>, i: int, b: Block)
    requires
        0 <= i < RECIPE_COUNT,
        forall|k: int| 0 <= k < spec_recipe_inputs(i).len() ==> amount(hb, (#[trigger] spec_recipe_inputs(i)[k]).0)
            + amount(bp, spec_recipe_inputs(i)[k].0) >= spec_recipe_inputs(i)[k].1,
    ensures
        ({
            let r = spec_apply_craft(hb, bp, i);
            let before = amount(hb, b) + amount(bp, b) - need(spec_recipe_inputs(i), b);
            &&& b != spec_recipe_output(i).0 ==> amount(r.0, b) + amount(r.1, b) == before
            &&& b == spec_recipe_output(i).0 ==> before <= amount(r.0, b) + amount(r.1, b) <= before
                + spec_recipe_output(i).1
        }),
{
    let inputs = spec_recipe_inputs(i);
    assert forall|j: int| 0 <= j < inputs.len() implies enough(hb, bp, #[trigger] inputs[j]) by {
        assert(amount(hb, inputs[j].0) + amount(bp, inputs[j].0) >= inputs[j].1);
    }
    lemma_recipes_distinct(i);
    law_spend_inputs_exactly(hb, bp, inputs);
    let p = spend_inputs(hb, bp, inputs);
    let o = spec_recipe_output(i);
    crate::inventory::law_add_stores_what_fits(p.0, p.1, o.0, o.1 as nat);
    assert(amount(p.0, b) + amount(p.1, b) + need(inputs, b) == amount(hb, b) + amount(bp, b));
}

/// Handles a craft request for the recipe at `recipe_index`: when the recipe
/// exists and every input is held, the inputs are spent and the output is
/// stored like picked-up blocks; otherwise nothing changes.
pub fn apply_craft(inv: &mut BlockInventory, hotbar: &mut Hotbar, recipe_index: usize)
    requires
        recipe_index < RECIPE_COUNT ==> checkable(old(hotbar).slots@, old(inv).backpack@, spec_recipe_inputs(recipe_index as int)),
    ensures
        final(hotbar).slots@ == spec_apply_craft(old(hotbar).slots@, old(inv).backpack@, recipe_index as int).0,
        final(inv).backpack@ == spec_apply_craft(old(hotbar).slots@, old(inv).backpack@, recipe_index as int).1,
        final(hotbar).selected == old(hotbar).selected,
{
    let rs = recipes();
    if recipe_index >= rs.len() {
        return;
    }
    let recipe = &rs[recipe_index];
    if !can_craft(inv, hotbar, recipe) {
        return;
    }
    let ghost hb0 = hotbar.slots@;
    let ghost bp0 = inv.backpack@;
    let ghost inputs = recipe.inputs@;
    proof {
        lemma_recipes_distinct(recipe_index as int);
    }
    let mut j: usize = 0;
    while j < recipe.inputs.len()
        invariant
            j <= recipe.inputs.len(),
            inputs == recipe.inputs@,
            inputs == spec_recipe_inputs(recipe_index as int),
            craftable(hb0, bp0, inputs),
            distinct_kinds(inputs),
            checkable(hb0, bp0, inputs),
            (hotbar.slots@, inv.backpack@) == spend_inputs(hb0, bp0, inputs.take(j as int)),
            hotbar.selected == old(hotbar).selected,
        decreases recipe.inputs.len() - j,
    {
        let (b, n) = recipe.inputs[j];
        proof {
            lemma_spend_prefix(hb0, bp0, inputs, j as int);
        }
        take_from_all(inv, hotbar, b, n);
        j = j + 1;
    }
    proof {
        assert(inputs.take(inputs.len() as int) =~= inputs);
    }
    let (ob, on) = recipe.output;
    add_to_all(inv, hotbar, ob, on);
}

} // verus!
