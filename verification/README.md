# htmlvidiff

Highlights what is new in an HTML document compared with an older version.

Both documents are split into tokens (runs of whitespace, runs of other
text, start tags with normalised `class` and `style` values, end tags). The
token lists are diffed with the patience algorithm of `similar`, the diff is
merged into one stream, and the new document is written out again from its
own source with the new parts wrapped in `<ins>`: inserted text, and inserted
elements whose end tag is inserted too, consecutive ones sharing one `<ins>`.
Inserted whitespace is marked only where it stands between marked parts.
When a new start tag has a deleted start tag of the same name inside its
element, the element's content changed: the start tag gets the class
`-content-changed`, the content before the deleted tag is wrapped in
`<ins class="-moved-into">`, and, when the element's end tag is new too,
the content after it up to the deleted end tag is wrapped in
`<ins class="-moved-outof">`. When instead the deleted start tag stands
before the new one, with only unchanged content between and an unchanged
end tag, that content was moved out: it is wrapped in
`<ins class="-moved-outof">` and the start tag gets `-content-changed`.
A new element around existing content (start and end tag new, not all of
the content new, no deleted token just before it) gets the class `-wrapper`,
its content wrapped in `<ins class="-moved-into">`. A class is added to the
start tag's quoted class list when it has one (found by reading the tag's
source as the tokenizer reads attributes), else as a `class` attribute of
its own.
Each token stands for the source from its start up to the next token, so
comments and doctypes are written out where they stood; an unchanged
document comes out without any mark.

Layout:

- `src/text.rs`: char and string helpers (whitespace, splitting, sorting,
  joining, trimming) with their specifications.
- `src/style.rs`: the normal form of `style` values, cut and rewritten with
  `regex`.
- `src/tokenize.rs`: tokens, attribute normalisation and the tokenizer state
  machine over the events of `html5tokenizer`.
- `src/tokendiff.rs`: the diff ops and the merged token stream.
- `src/classes.rs`: finding a start tag's class list in its source.
- `src/highlight.rs`: the highlighted output, and its parts: marks and
  stretches of the new document's source.
- `src/sanitize.rs`: reserialising a document with `html5ever`.
- `app/main.rs`: prints the token diff of two sample documents.

Everything in `src/` is verified with Verus; the calls into `html5tokenizer`,
`similar`, `itertools`, `regex`, `html5ever` and a few `std` functions stand behind
small trusted wrappers whose contracts are stated in their doc comments.
