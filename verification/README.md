# My Magic Adventure

A small voxel adventure game: a streamed block world, five playable races
with their own spells and abilities, creatures, crafting, an inventory and
save slots.

The rules of the game live in a library whose behaviour is stated in
contracts and proved with Verus:

- `block`, `chunk`, `mesh`, `quads`: blocks, chunk storage, visible faces,
  and their greedy merging into rectangles.
- `generation`: terrain columns, trees, the stone floor.
- `inventory`, `crafting`: hotbar and inventory stacks, recipes.
- `race`, `spells`, `creatures`, `terraform`, `breaking`, `ray`: races,
  spell loadouts, creature rules, crater and eruption shapes, block
  breaking, what a look ray hits.
- `streaming`, `lod`: which chunks to load, keep and draw at each detail.
- `text`, `save`: number formatting and parsing, the save-file formats.
- `flow`: the screens and how each player action moves between them.

`app/` is the program around it (engine, rendering, noise, input, files),
which hands the library plain values and applies its answers.
`tests/` exercises the library on concrete values.
