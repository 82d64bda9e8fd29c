# whoa

A terminal screensaver with several animations: EarthBound battle
backgrounds, Perlin noise, a slime mold, swirling, collapsing and undulating
text, and Conway's Game of Life played on the glyphs of the screen.

## Layout

- `src/` is the verified library (Verus):
  - `hat.rs`: the hat that hands out items in a random order without repeats;
  - `anim/mod.rs`: the braille density ramp and the color gradients with
    their configuration;
  - `anim/collapse.rs`: text falling under gravity;
  - `anim/conway.rs`: the rules of life and the inheritance of newborn cells;
  - `anim/cos.rs`: rolling the columns of the screen;
  - `anim/saturn/`: decoding the battle-background data (`romparse.rs`, with
    the compressed format in `layout.rs`) and the animation state that
    scrolls, cycles and samples a background (`mod.rs`);
  - `config.rs`: reading the configuration file's TOML text, and the edits
    that asking for one animation on the command line makes to it;
  - `seed.rs`: the fallback seed text, the program's own source highlighted
    line by line with `syntect`;
  - `random.rs`: the random draws, from the `rand` crate.
- `app/` is the program around it: the command line, reading and editing
  the configuration file, gathering the seed text, the terminal, and the floating-point parts of the
  animations.
- `tests/` exercises the library.

The battle-background animation reads its data from `saturn_bg.dat` in the
configuration directory (`~/.config/whoa/`).
