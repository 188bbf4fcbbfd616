# niri_display

Virtual displays on the niri compositor, for a remote desktop host: captured through
`wlr-screencopy`, resized over niri's IPC socket, and taken over for the length of a remote
session. The logic is a Verus library; it makes decisions and leaves carrying them out to its
caller.

| module | what it is about |
| --- | --- |
| `convert`, `planes`, `rows` | converting pixels for encoders, cut into row slices |
| `slicing`, `exchange` | why the slices give the bytes of one whole conversion, and what exchanging red and blue does |
| `screencopy`, `ppm` | capturing a frame, waiting for it, putting its rows in order, writing it |
| `json`, `ipc_session`, `niri_ipc` | the documents, the sockets and the requests of niri's IPC |
| `virtual_display` | virtual displays next to the enumerated ones |
| `takeover` | turning the physical outputs off for a session, and on again |
| `niri_cursor`, `kdl` | the arrow cursor of the compositor's theme, and the configuration that names it |
| `text`, `order`, `paths` | what these share |

`src/` is the library, `tests/` runs it, and `app/` holds what surrounds it: sockets, files,
threads, Wayland and libyuv. JSON comes from `serde_json` and cursor files are read by `xcursor`;
what is taken on trust of them stands in the functions marked `external_body`.
