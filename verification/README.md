# rewwise

Soundbanks as SQLite databases: one row for each object of the routing graph, and one for each
audio file. This crate is the verified core. It holds the rules by which banks are taken apart,
put together, searched and edited. Every function in `src/` is proved against its contract by
Verus, but for a few that only call `serde_json` or the standard library: their contracts are
trusted, and their comments say what they claim.

| Module | What it does |
| --- | --- |
| `text`, `seqs` | numbers as text, lines, sorting and searching |
| `json`, `json_text`, `renumber` | JSON trees, their text by way of `serde_json`, and ids in them |
| `ids`, `kind` | names, hashes, the dictionary, and the kinds of objects |
| `body`, `body_laws` | the bodies of objects: routing, references and children |
| `bank`, `index` | banks, their sections, and finding objects |
| `wems` | the audio data of a bank and its index |
| `rows`, `storage`, `stored_laws`, `import_laws` | banks as rows of the database, import and export |
| `session`, `session_laws` | a bank in memory, and the rows that mirror its changes |
| `graph`, `edits`, `editor` | dependencies, trees, and the commands of the editor |
| `viewer`, `pages` | the edits and the pages of the web viewer |
| `bench`, `sound_laws`, `patch`, `compare` | new sounds, stored trees patched in place, banks compared |

`app/` is the program around the library: the command line, the database, the web server and the
binary format, which `wwise_format` reads and writes.

What is stored comes back. `rows::write_soundbank` promises that the rows of a bank hold it, but for
its audio; `stored_laws` shows that what is read is complete, and that every edit leaves it so;
`storage::import_bnk` promises that a bank whose audio is packed as exports pack it is exported as
it was; and `session_laws::lemma_lock_step` shows that the rows of a session hold its bank after
every change.
