# Kynoko Launcher

The desktop companion of the Kynoko web apps: it opens a double-clicked file
in the app that reads it, in the browser (and profile) the user chose, hands
the file to the page through a loopback bridge on 127.0.0.1, gives the apps
shortcuts, and takes away everything it wrote when asked.

Layout:

- `src/` is the library, verified with Verus: the catalogue and its refresh
  schedule, browsers and profiles, the freedesktop.org formats
  (`mimeapps.list`, desktop entries, shared-mime-info), settings and the
  inventory of what was written, the bridge's guards and routes, shortcuts,
  icons (`.ico`, `.icns`), and what each system's registration writes and
  takes away. Each public function states its result in its contract; the
  `law_*` proof functions state what holds across calls (a registration
  undone leaves the inventory as it was, a replaced default comes back, a
  closed session answers no more, ...).
- `tests/` runs the library on concrete values.
- `app/` is the program around it: the window (Tauri), the file system, the
  registry, LaunchServices, the network, and the bridge's listener.
