# invariant-path-core

A claim-path debugger: it finds sentences where a claim crosses from one
domain into another through a trigger phrase ("therefore", "this proves",
"implies", ...), classifies the crossing (valid path, overextension,
conflation, incomplete, abstain), records the result as editable
annotations, and extracts factual claims from documentation (file paths,
A2ML presence, command-output claims) to ground them against a corpus.

The library is written in Verus: each public function states what it
returns in its `ensures`, over spec functions on `Seq<char>` views, and the
properties that span several functions are public proof functions.

## Layout

- `src/text.rs`: UTF-8 byte lengths and offsets of character sequences,
  trimming, searching, and the character-level string functions.
- `src/model.rs`: the annotation model, ids and timestamps.
- `src/extractor.rs`: sentence splitting, trigger search and candidate
  extraction.
- `src/classifier.rs`: the classification rules and invariant types.
- `src/pipeline.rs`: scanning one or several artifacts into annotations.
- `src/annotations.rs`: the annotation record set (upsert, lookup, status
  changes).
- `src/doc_claims.rs`: documentation claims: recognisers, ids, grounding
  judgments, corpus-walk decisions.
- `src/commands.rs`: the decisions of the command-line tool (profiles,
  labels, listings, edits, summaries and exit status).
- `tests/`: scenarios and properties on concrete values.
- `app/`: the command-line tool, the JSONL store on disk, and the file-system
  side of grounding.
