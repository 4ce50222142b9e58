# noesis_bridge

The verified core of a bridge between a game engine and a XAML user interface,
in two parts.

- **Hot-reload.** Files on disk feed markup URIs. Requests to watch a file, change
  notifications and re-read bytes come in; out come the directory watches to
  start, the URIs that are stale and the refreshed registry.
- **Clips.** Per-view clip polygons by element name, and the views whose clips
  have to be written in a frame.

`src/` is the library; every item in it is verified with Verus. `app/` is the
engine side: the filesystem watcher, the files themselves and the plugins that
run the library once per frame. `tests/` runs the library.
