# trmnl_rtd

Real-time RTD train departures for a TRMNL E-Ink display, as a verified library.

The board shows the next departures of the G Line (eastbound toward Union
Station) from Wheat Ridge / Ward Road, each merged with the GTFS-realtime trip
updates, and the active service alerts.

- `src/` is the library, verified with Verus:
  - `text` — trimming, splitting, lines, and decimal numbers as `str::parse` reads them;
  - `clock` — times of day: GTFS `H:M:S` fields, `HH:MM` labels, Denver clock times;
  - `config` — settings and their defaults;
  - `schedule` — the static GTFS tables turned into each weekday's departures, in time order;
  - `gtfs_rt` — what the realtime feeds say of our trips and our stop;
  - `board` — the departures with their status (`scheduled`, `on_time`, `delayed`) and the alerts;
  - `refresh` — the weekly refresh of the static data: which files, which slot, and the
    steps of promoting pending data to the active slot.
- `tests/` holds the tests.
- `app/` is the program around it: environment, files, HTTP, protobuf and CSV
  decoding, JSON output, and the Cloudflare Worker handlers.
