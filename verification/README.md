# altc_gui

The verified core of a browser front end that converts Ableton Live `.ask`
theme files between Live 10, 11 and 12.

- `src/` — the library, verified with Verus:
  - `version`: the Live versions, their numbers, and the options of a version
    selector (values read back as the version they name);
  - `decimal`: reading a `u8` and writing an unsigned number in decimal;
  - `ask`: an uploaded file and the edits made to it;
  - `asks`: the list of files (add, edit, delete);
  - `conversion`: the entry shown once the converter has read a file, and the
    line on which a failed read stopped.
- `app/` — the Yew components: events, file reading, downloads, and the calls
  to the theme converter (`altc`).
- `tests/` — tests of the library on concrete values.
