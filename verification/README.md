# demo_lab

Verified logic behind a set of browser science demos:

- a porous-crystal foundry game: pieces fall into a well, gas floods the open cells, and
  probes of three sizes look for a shortest route to a vent;
- a pore-network puzzle: reachability, the widest route and its limiting throat, and the
  guidance texts;
- polymer topologies (linear, ring, dendritic, bottlebrush) for an evolutionary packing
  search, with the search's configuration checks and breeding plan;
- small lattice tools: periodic cell lists, grain growth on a square lattice, the shape
  vocabulary of a Monte Carlo packing demo.

## Layout

- `src/` is the library, written in Verus. Its executable functions carry contracts that
  Verus proves, and the public proof functions state the laws that hold across calls.
  Calls into `rand` and a few std functions sit behind small trusted wrappers whose
  contracts say what those functions document; the one that seeds a generator from the
  operating system promises nothing of its result and has no contract.
- `tests/` runs the library on concrete values.
- `app/` is ordinary Rust around the library: the WebAssembly entry points, DOM drawing,
  and the floating-point physics (energies, forces, coordinates), calling the verified
  library for every integer decision it makes.
