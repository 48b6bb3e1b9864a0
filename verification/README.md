# steel

The decision-making core of a Minecraft-compatible server's world generation,
verified with Verus.

- `src/` is the verified library: surface-rule lowering and density-function
  analyses, nearest-biome lookups, cell-corner filling plans, ore veins and
  trees, structure pieces, the pregeneration pipeline with its memory and
  affinity decisions, a wait queue, tags, and the host boundary with its
  snapshot format.
- `app/` is the ordinary Rust around it: system calls, files, threads, regions,
  floating-point kernels, generated source and the C exports.
- `tests/` exercises the library from outside.

Floating-point values enter the library as bit patterns or as the outcomes of
comparisons; what is drawn at random or read from the machine enters as an
argument.
