# lkml_core

Mail parsing and archive access for the public-inbox lists of
[lore.kernel.org](https://lore.kernel.org), with contracts that
[Verus](https://github.com/verus-lang/verus) proves.

Each mailing list is published as a chain of bare git repositories, its epochs. Every
commit is one mail, stored as the blob `m`. The library decides what to ask of git and
of the server, reads their answers, and makes sense of the mails; asking is done by the
code in `app/`.

| module | what it holds |
| --- | --- |
| `archive` | the manifest, mirrors and epochs, git's logs and batch output |
| `mail` | a parsed mail, its full text, the draft of a reply |
| `header` | splitting a mail, looking up headers, senders |
| `encoding` | quoted-printable, base64, encoded words |
| `patch` | the `[PATCH vV n/m]` tag of a subject |
| `thread` | threads, patch series, reply counts |
| `forest` | how many replies a node has, circles of replies included |
| `filter` | date windows |
| `parse` | Message-IDs |
| `time` | points in time, and the calendar |
| `order` | stable sorting |
| `number`, `text`, `unicode` | decimal numbers, text as characters, UTF-8 and case |

Spec functions say what each operation computes over sequences of characters and
integers; the executable functions are proved to compute it. Proof functions whose
names begin with `law_` state what holds of several operations together: what was
encoded is read back, grouping keeps every mail, a truncated read shifts no mail onto
the wrong commit.

Not proved, but stated and tested: what `chrono` makes of dates and the local time zone,
what `flate2` makes of compressed bytes, and a few functions of the standard library.
Each stands behind a small function whose comment says what is claimed of it.
