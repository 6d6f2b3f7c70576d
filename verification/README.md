# beancount_references

References to accounts in beancount ledgers, and renames of them, as a language server answers
them (`textDocument/references`, `textDocument/prepareRename`, `textDocument/rename`). The library
under `src/` is verified with Verus.

Account names are hierarchical. A rename of `Assets:Cash` renames every account below it too, such
as `Assets:Cash:Wallet`, and leaves alone `Assets:CashOld`. A reference is an exact match.

| Module       | What it holds                                                               |
|--------------|-----------------------------------------------------------------------------|
| `lsp`        | positions, ranges, locations and edits of the protocol                      |
| `text`       | lines, and columns in UTF-16 code units and in bytes                        |
| `content`    | the same on the ropes that hold documents                                   |
| `syntax`     | syntax trees, and the query for accounts                                    |
| `account`    | the hierarchy of names, and what a rename makes of a name                   |
| `uri`        | paths of files and their URIs                                               |
| `files`      | the files of a project: trees, open documents, stored contents              |
| `matches`    | the places at which an account is named                                     |
| `edits`      | the order in which the edits of a document are sent                         |
| `changes`    | the edits of a rename, document by document                                 |
| `apply`      | what a document becomes when a client applies the edits                     |
| `references` | the three requests                                                          |
| `cursor`     | what a cursor finds, wherever in an account it stands                       |
| `layout`     | a file as names and the gaps between them; that a rename back restores it   |

Each request has one specification function that says what it answers on every input
(`prepared_rename`, `found_references`, `rename_answer`). The proof functions whose names start
with `law_` state what holds of the requests and their parts together.

What tree-sitter, ropey, `url` and the paths of `std` compute is not proved. It enters through the
functions marked `external_body` in `syntax`, `content` and `uri`, each with a comment that says
what is claimed of the call.

`app/` holds the handlers that a server calls, over the types of the protocol crate.
