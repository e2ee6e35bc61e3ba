# NeTray

A macOS menu bar network monitor: live upload and download throughput in the
status bar, session totals, peak speeds, per-interface and per-application
breakdowns in the dropdown.

The logic is a Verus library under `src/`, every function verified against
its contract:

- `speed` – the compact title figures ("4.0K", "12M", "1.00G", "16E"), at
  most five characters, in exact integer arithmetic, the figure-space padding
  and the two-line title of constant width;
- `monitor` – speeds from the bytes moved per interval, session totals, the
  list of real, active interfaces, busiest first;
- `app_monitor`, `scan`, `table` – parsing `nettop` output into samples,
  per-application deltas summed by name, the busiest applications;
- `labels`, `app_rows` – the menu texts and the layout of application rows;
- `state` – peaks, resets and the decisions of the event loop;
- `ranking`, `text` – a stable descending ranking and character utilities.

`app/` is the program around it: the tray icon and menu (tray-icon, winit),
the system counters (sysinfo), the `nettop` process, and the AppKit calls
that draw the title and the application rows.
