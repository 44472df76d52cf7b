# forma_dock

A desktop "zone" launcher for Windows: each sub-folder next to the
executable is a zone whose files and folders are shown as a grid of system
icons in a transparent window anchored to the desktop.

- `src/` is the verified library (Verus):
  - `text`: white space, trimming, splitting, UTF-8 widths, integer reading;
  - `config`: the `forma_dock.ini` settings file (sections, keys, colours,
    yes/no values, opacity); decimal values are handed on as text;
  - `listing`: listing order of a folder (folders first, then by file name,
    stable), hidden entries, zone folders;
  - `nav`: moving between zones, wrapping at both ends;
  - `pixels`: icon bitmaps from BGRA to RGBA with their transparency, and the
    tray icon's image;
  - `shortcuts`: `.url` / `.lnk` shortcuts, the names shown, icon files named
    by Internet shortcuts, the order in which icon files are tried, UTF-16
    paths for the system;
  - `search`: the search filter, the icon requests made per frame and what
    is kept between frames (requests made, listing generation, texture size).
- `app/` is the Windows program around it: window and drawing (eframe/egui),
  tray icon, file system access, Shell icon extraction, worker threads, and
  the decimal (floating point) settings.
- `tests/` exercises the library.
