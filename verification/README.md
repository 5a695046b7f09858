# htldev

Offline-first search for htl.dev: mirror the site, index it, and search it from the
terminal.

The crate is a library whose behaviour is stated in contracts and proved with Verus
(`src/`), and a program around it (`app/`).

## The library

| Module | What it holds |
|--------|---------------|
| `text`, `pattern`, `pieces`, `order`, `number`, `text_set` | texts as sequences of characters: trimming, splitting, searching, sorting, numbers, sets and maps of texts |
| `document` | documents: status, title, headings, links |
| `digest` | hashes by which a change is noticed |
| `paths` | paths as the system reads them |
| `fs_source` | reading the mirror, path filters, search by regular expression |
| `index` | what has to be written to the index, what is asked of it, what is made of its rows |
| `service` | what is looked up and shown for a request |
| `highlight` | where the words of a query stand in a line |
| `tui` | the state of the terminal interface and what keys do to it |
| `links` | addresses and links, and what they become in the mirror |
| `dom`, `page` | from the HTML of a page to the markdown of the mirror |
| `mirror` | signing in, discovering pages, keeping account of downloads |
| `credentials` | the list of accounts, as it is kept on disk |
| `cli` | arguments, tasks and reports |

Functions named `law_…` are proofs of properties that span several functions: that
indexing leaves exactly the documents of the mirror in the index, that what was stored
reads back, that a relative link leads to the page it names, and the like.

What is believed without proof is marked `external_body` or `assume_specification`, each
with a comment that says what is claimed of which outside function. A result that
takes pages to describe has a name instead (`uninterp spec fn`).

## The program

`app/` reads files, talks to SQLite, the network, the keyring and the terminal, and
hands plain values to the library.

```sh
htldev scrape            # mirror the site (asks for credentials once)
htldev index             # bring the index up to date
htldev search "docker compose" --limit 5
htldev search "\.env" --regex
htldev search "kubernetes" --path "technologies/*"
htldev show technologies/docker.md
htldev open technologies/docker.md
htldev tui
htldev doctor
```
