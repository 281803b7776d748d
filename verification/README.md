# lume

A dictionary tagger over a finite-state transducer, with the text tools
around it, written in Verus: the library in `src/` is verified, the
command-line front ends in `app/` are ordinary Rust around it.

## Layout

- `src/text.rs` – chars of a `str`, UTF-8 offsets, trimming, lines, splitting.
- `src/analyzer.rs` – hyphen stripping, Latin folding, tokenisation, keys
  and output tokens, with the laws on what a key depends on.
- `src/order.rs` – lexicographic order, sorted search and insertion.
- `src/fst.rs` – the `tantivy-fst` calls the tagger makes (trusted).
- `src/tagger.rs` – building the dictionary and tagging text, with the laws
  on the tags (offsets, longest match, where records come from).
- `src/dict.rs` – CSV and TSV dictionaries, file stems, UUID text.
- `src/regex.rs` – a regular-expression parser, Thompson construction, an
  active-set matcher and fuzzy term expansion.
- `src/thompson.rs` – the language of an expression, walks through an
  automaton, and the proof that the construction accepts exactly that
  language.
- `src/recognize.rs` – the matcher's active states are the ends of the
  walks; each reported match is the longest span the expression matches.
- `src/fuzzy.rs` – the fuzzy pattern of a term parses and matches exactly
  the words that fit one of the term's one-edit variants.
- `src/bm25.rs` – Markdown sections and term statistics.
- `src/cli/` – what the crawler and the hybrid search decide and format.
- `app/` – `main`, files, network, and the floating-point BM25 scoring.
