# surface_probe

Finds the surface of an atomic cluster placed on a lattice of sites.

- `src/` is the verified library (Verus). `start_sites` picks the sites on
  the bounding box of the lattice, `layering` searches the empty sites layer
  by layer from there and collects the surface and the near surface,
  `read_and_write` places a sample's atoms on the lattice, reads neighbor
  files and lists the atoms of output frames, `text` tokenizes lines and
  reads numbers, `atom_names` looks element names up, and
  `fnv_collections` holds the FNV-hashed sets and maps the library works on.
- `app/main.rs` is the program around it: file input and output (through
  chemfiles), and everything computed with floating point (coordinates,
  distances, the integer order keys of coordinates).
- `tests/` runs the library on small lattices and files.
