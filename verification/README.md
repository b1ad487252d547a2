# Polaris

An editor for Word documents around a verified core. A document is a tree of typed nodes; it changes
only through patches, each of which hands back its inverse. Files are read and written through
`officecli`, paragraphs are found again by their identity, every write leaves a version behind, and
what an AI proposes reaches the document only after review.

The library under `src/` is written in Verus: what each function returns is stated in its contract,
and the promises that span functions are public proof functions whose names begin with `law_`.

| Modules | What they hold |
|---|---|
| `ops`, `offsets`, `doc`, `tree`, `prose` | patches, positions in texts, the document and its model |
| `patchset`, `commit`, `laws` | running order, atomic commits, undo, and what holds of them |
| `render`, `outline`, `diff` | HTML with a source map, blocks on show, differences of texts |
| `docx`, `office`, `json` | Word blocks, the views and batches of `officecli`, JSON values |
| `session`, `review`, `saving`, `ai` | an editing session, review of proposals, saving, prompts and replies |
| `history` | names, listing and pruning of file versions |
| `text`, `textmap`, `describe` | texts, tables keyed by text, errors as text |

`app/` holds the window, the processes and the file system. `polaris` opens the window and
`polaris --view <path>` prints a document as HTML; both need `officecli` on the `PATH`.
`POLARIS_DOC` sets the path that the window starts with. `POLARIS_AI` holds the command that answers
AI requests: it reads a prompt from its standard input and prints its answer.
