# Emerald

Open-world exploration of Hoenn: one stitched overworld, every interior a realm
of its own, warps between them, doors, surfing, the Mach bike, and the music.

The library under `src/` is verified with Verus:

- `codec`, `files`, `text`, `single`, `types`: packed data, source files by
  their paths, text, single-precision numbers by their bits, and the plain data
  that the game and its hosts share.
- `game`: the world pack, realms, the player, the simulation step, saves, the
  baking of atlases, and what a frame shows.
- `audio`: the music pack, its subsets, the sequencer, the mixer, and the checks
  of a song.
- `musicgen`, `worldgen`: from a source tree to the packs.
- `backends`: what the hosts decide: which song to fetch, what waits for a page,
  the order of draws.

`app/` is the program around it: windows, devices, files, and everything in
floating point (the camera, the placement of draws, the synthesis of sound).
`tests/` runs the library.
