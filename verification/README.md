# server_upnp

A minimal UPnP/DLNA MediaServer: it exposes one folder and its tree, as they
are on disk, to the players of the local network (VLC, connected TVs).

`server_upnp <port> <folder> [name]`

## Layout

- `src/` — the library, verified with Verus: object IDs and their
  percent-encoding, XML escaping, SOAP argument reading and envelopes, the
  `Browse` listing (filtering, folder-first accent-insensitive order,
  pagination) and its DIDL-Lite entries, path resolution under the root,
  the stable UUID, SSDP messages and the bookkeeping of multicast
  interfaces.
- `app/` — the program around it: arguments, the HTTP server (axum), disk
  reads, sockets and timers (tokio, socket2, if-addrs).
- `tests/` — tests of the library.
