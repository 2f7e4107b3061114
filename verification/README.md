# atlas_packer

Packs a set of RGBA textures into one square texture atlas and records, for
each texture name, where its texture went (`x`, `y`, `width`, `height`, and
whether it was turned 90 degrees).

Layout:

- `src/` — the library, written in Verus and verified:
  - `geometry.rs`: regions and rectangles;
  - `texture.rs`: RGBA textures as plain bytes, with the image operations
    (new image, turn, overlay) taken from the `image` crate;
  - `image_extract.rs`: the textures to pack, their padded cells, decoding
    an image file's bytes into a texture, and the choice of image files by
    extension;
  - `atlas_key.rs`: the entries of the atlas key and the key itself;
  - `sort.rs`: the packing order (descending area, stable);
  - `packing.rs`: the guillotine packer and its laws (nothing lost, nothing
    overlapping, textures drawn where the key says);
  - `atlas.rs`: the search for the atlas side, the steps it reports, and
    the atlas itself.
- `app/main.rs` — the command-line program: arguments, reading the folder
  and the files, printing the search's steps, writing the PNG atlas and its
  JSON key.
- `tests/` — tests of the library on concrete textures.
