# toonmux

A keyboard multiplexer for several game windows: one set of keys drives
several game clients at once, each "controller" with its own bindings, with
optional mirroring of one controller's moves onto others, a talking mode, a
keepalive timer, a raw input-device mode, and automatic discovery of game
windows on nested gamescope displays.

Layout:

- `src/` is the verified library (Verus):
  - `bitset.rs`: small index sets in one machine word and their iterator;
  - `keys.rs`: keysym constants and the evdev-code-to-keysym table;
  - `bindings.rs`: main and controller bindings, binding slots, actions;
  - `routes.rs`: the routing table (an `FxHashMap` behind a few trusted
    wrappers) and the verified operations on its entries;
  - `state.rs`: controllers and the state: loading a configuration,
    rebinding, rerouting, adding and removing controllers, mirrors, windows;
  - `events.rs`: what a key press, a key release, the keepalive tick and a
    raw input event send to which windows;
  - `toon.rs`: recognising game windows and gamescope sockets, display
    names, and the order in which found windows are assigned;
  - `laws.rs`: properties that span several calls.
- `app/` is the GTK program around it: widgets, dialogs, the libxdo/Xlib
  calls, the configuration file, the keepalive timer and the raw input
  thread.
- `tests/` exercise the library on concrete values.
