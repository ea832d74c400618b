# are_world

A small artificial-life world: a toroidal plate of cells where plants grow and
creatures wake up, look around, eat, chase, flee, fight, move and breed. Players can
watch the plate over a plain TCP terminal connection.

The library in `src/` is written in Verus. Its functions carry contracts that Verus
proves, except six small wrappers whose contracts are believed, not proved: the calls
into `rand` (`gen_range_usize`, `sample_uniform_u32`, `sample_uniform_isize` and
`gen_ratio` in `random.rs`), `push_char` (`String::push`, in `text.rs`) and `share`
(`Arc::clone`, in `mob/bio.rs`). `random.rs` also declares the type `StdRng` to Verus.

- `grids`, `plate`: coordinates, areas and the plate, going around its edges.
- `cosmos`, `deamon`, `refs`: the world, the creatures on it and the bounded views of
  it that a chunk's work may touch; no two creatures ever share a cell.
- `ripper`, `tick`, `mail`: how a tick is cut into batches of chunks whose bounds never
  overlap, how letters wait for their tick and reach their creature.
- `gnd`, `element`: grounds, plants and burning cells.
- `mob`: creatures, species, genes and the pool of species, searches over the plate,
  what a creature does when it hears and when it is ordered, and the delivery of a
  tick's messages.
- `gen`: sowing the plate with plants and making new creatures.
- `online`, `conencode`, `text`: the player's commands and what they are shown.
- `observe`: views of the world for observers, and the energy each species holds.

`app/` holds what runs the world: configuration files, the network, the clock, and the
parts computed with floating-point numbers.
