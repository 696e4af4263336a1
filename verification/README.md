# Lumière

Lumière controls Neewer lights over Bluetooth Low Energy: a daemon with a REST and
WebSocket interface, a control panel in the browser, and a probe for the command line.

The rules are a library that Verus verifies; the program around it does the I/O.

- `src/`: the library.
  - values: `mode`, `caps`, `id`, `slug`, `selector`, `preset`, `animation`, `state`
  - packets: `wire`, `light`, `scan`, `transport`, `sim`
  - the daemon's world: `registry`, `events`, `playback`, `library`, `world`, `session`,
    `tickets`, `access`, `api`, `store`, `web`, `models`, `order`
  - animations: `anim`, `fade`, `rounding`, `brightness`, `player`, `convert`
  - the control panel: `client`, `platform`, `format`, `controls`, `panels`
  - command lines: `args`, `probe`
- `tests/`: tests that run the library.
- `app/`: the program: `main`, tasks and channels, HTTP, Bluetooth, files, and the
  components of the control panel.

Speeds and brightness scales are single-precision numbers. The library holds them as
their bits and computes with integers; `rounding` states how a quotient is rounded.

The program reads `models.toml`, `presets.toml` and `animations/` from the directory that
`LUMIERE_ASSETS_DIR` names, or else from `assets/`.
