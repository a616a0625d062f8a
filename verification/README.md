# keva_core

The core of keva, a clipboard store: each key (a trimmed, non-empty text of
at most 256 characters) holds a value with lifecycle metadata and attachment
records, in a redb database, while the key's files (markdown content,
attachments, thumbnails) live in directories named by the key's BLAKE3 hash.
Keys are active or in the trash; two TTL indexes, whose byte order is time
order, let garbage collection move keys unused for a while to the trash and
delete keys that stayed in the trash long enough.

The library in `src/` is written in Verus and verified: every operation
states what it does to a mathematical view of the database, keeps the
indexes consistent with the values, and the laws of the store (a read gives
back the last write, trashing then restoring gives the content back,
collection removes exactly the keys due) are proof functions.

- `src/types`: keys, timestamps, TTL index entries, stored values and their
  byte format, configuration;
- `src/database`: the database, its TTL indexes, garbage collection, the
  maintenance record;
- `src/file_storage.rs`, `src/keva.rs`: the file layout and the store;
- `src/search.rs`, `src/fuzzy.rs`: fuzzy search bookkeeping and matching;
- `src/model.rs`, `src/config.rs`, `src/error.rs`, `src/ui.rs`: path keys and
  clipboard values, settings, errors, window state;
- `src/window.rs`: how the borderless window answers the messages of the
  platform (resize borders, Escape, tray icon and menu), where it opens,
  when its drawing surface is made anew, and the lines of the key list;
- `tests/`: tests of the library;
- `app/`: the unverified parts around it: file and clipboard I/O, thumbnail
  scaling, settings files, the clock, and the threaded fuzzy matchers.

Not carried over: the full-text and regex search engine built on tantivy
and regex (a module that no part of the source reaches, written against
items that do not exist), and the `Default` of the older search
configuration (the library's `SearchConfig::new` gives smart case,
Unicode normalisation and a rebuild threshold of 100).
