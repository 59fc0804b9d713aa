# apkv

Reads the binary XML of an Android manifest (`AndroidManifest.xml` inside an
APK) and renders it as indented text, then picks out the version code and
version name lines.

- `src/` is the verified library:
  - `xml/reader.rs`: little-endian words of a document;
  - `xml/str_block.rs`: the string pool;
  - `xml/namespace_stack.rs`: namespace scopes stored in one word array,
    proved against a model of nested declaration lists;
  - `xml/parser.rs`: the pull parser, specified as a state machine over
    chunks (`chunk_step`, `scan`, `next_state`);
  - `xml/parser_laws.rs`: what runs of chunks do: namespace declarations
    before a start tag, attribute records, the end of the document after
    an end tag and namespace end chunks;
  - `lib.rs`: the text rendering (`parse_android_manifest`), specified by
    `manifest`;
  - `numbers.rs`, `text.rs`, `version.rs`: number and string helpers and the
    version line search.
- `app/` is the command-line program: it opens the APK with the `zip` crate,
  reads the manifest entry, writes the numbers of dimension and fraction
  values (floating point) and prints the version lines.
- `tests/` builds documents word by word and checks the rendering.
