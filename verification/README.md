# rusty_share

A small HTTP file share: it lists directories as web pages, sends files, and sends tar archives of
the files that are ticked in a listing.

- `src/` is the verified library. It decides what to do about a request (`server`), lists
  directories (`share_entry`, `timestamp`), renders pages (`page`, `html`), reads forms and links
  (`form`, `percent`, `text`), finds what a path stands for (`target`), measures and names archives
  (`archive`, `disposition`), and builds answers (`response`). Whatever it asks of other crates goes
  through small wrappers that say in their contracts what is taken for granted.
- `app/` is the server around it: sockets, threads, files and the archive writer. It reads
  `style.css` and `player.js` from the directory given by `--assets`.
- `tests/` runs the library with the other crates linked.
