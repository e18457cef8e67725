# wifi_scanner

Aggregation of Wi-Fi scans, written and proved in Verus.

A background worker scans for access points. Each scan becomes a snapshot; a scanner
keeps the snapshots of the last five minutes, reads figures from them, regroups them into
one plot series per network, and exports them as CSV.

- `src/` is the verified library.
  - `time`, `text`, `hash`: points in time, text, a stable hash.
  - `sample`: samples, snapshots, deduplication by access point.
  - `history`, `series`, `channel`: averages, time bins, series per SSID, averages per
    channel.
  - `scanner`: the live window and its readings.
  - `csv`: writing CSV, and the proof that what is written reads back.
  - `settings`, `frames`, `interaction`, `labels`, `state`: what the application keeps
    between frames.
  - `worker`: the decisions of the background loop.
- `app/` is the egui shell: windows, widgets, colors, files, threads.
- `tests/` runs the library on concrete values.

Public proof functions named `law_...` state what holds of the library as a whole.
