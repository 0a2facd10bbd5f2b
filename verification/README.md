# subtitle-renamer

Pairs subtitle files with the video files of the same episode and renames the
subtitles after the videos, so that players load them by themselves.

The library in `src/` holds all that is decided and computed. It is written in
Verus: each function states what it returns, and the statements are proved. The
program in `app/` reads and writes files, keeps the history in a database, and
draws the window.

| Part | Modules |
| --- | --- |
| Reading file names | `registry`, `stem`, `fields`, `extract`, `cross`, `pattern`, `unicode` |
| Episode keys | `key`, `normalize` |
| Pairing | `matcher`, `conservation` |
| Target names and plans | `naming`, `language`, `plan`, `script` |
| Carrying out and taking back | `execute`, `apply`, `undo`, `restore`, `session`, `checksum` |
| Records | `state`, `history`, `timeline`, `calendar` |
| The desk | `workspace`, `config`, `view` |
| Foundations | `text`, `paths`, `sorting` |

Laws that hold across functions are public proof functions whose names begin with
`law_`. The functions of other crates that the library calls stand in `pattern`,
`unicode`, `text`, `checksum`, `state` and `config`, each with a comment that says what is
taken for granted of it.

Paths are strings with `/` between their components.
