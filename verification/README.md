# file-rescue

Rescue data from failing storage in two stages, with the logic of both proved
correct in Verus:

1. **Imaging** copies a failing source into an image, getting the easy data
   first and narrowing down bad sectors later (copy, trim, scrape, retry).
   Progress is tracked in a map that is saved as a GNU ddrescue mapfile, so
   runs can be interrupted and resumed.
2. **Carving** extracts photos, videos and documents from an image by the
   structure of their formats.

## Layout

- `src/map`: the rescue map, its mapfile form, and their laws.
- `src/image`: sources and sinks, the four passes, the engine that runs them,
  the order of their reads (`trace`), and what imaging keeps (`progress`,
  `healing`, `laws`).
- `src/carve`: the carvers of the formats, the scan, reports, and their laws.
- `src/text`: numbers and text as sequences of characters.
- `src/cli`, `src/device`, `src/ui`: the decisions and texts of the command
  line, of opening devices and of the display.
- `src/testutil`: builders of small media files and disks.
- `app`: the `rescue` program, which does the input and output.
- `tests`: what runs the library.

Contracts state what a function returns; laws that relate several functions
are public proof functions in the `laws` modules and beside
the functions that they are about.
