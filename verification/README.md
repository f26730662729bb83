# opcode_gen

Generates the opcode handlers of a Game Boy CPU emulator from the opcode table
of `gbops.html`.

- `src/` is the verified library (Verus):
  - `text`: character-sequence utilities with specifications (numbers in
    base ten and sixteen, splitting, joining, replacing, trimming, words);
  - `text_map`: a finite map from texts to texts;
  - `pest_parser`: the grammar of an instruction cell and its reading into fields;
  - `opcode_data`: opcode records built from those fields;
  - `generator`: the code fragments the templates insert, the reading of the
    JSON tables (through `serde_json`) and their stable ordering by code;
  - `html_scraper`: the reading of the page's tables (through `scraper`) and
    the keys and texts of their cells;
  - `pipeline`: what holds of the way from a cell to an opcode.
- `app/` is the program: it reads and writes the files, and renders the
  templates with `tera`.
- `tests/` runs the library on concrete tables and cells.
