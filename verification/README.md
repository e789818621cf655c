# g2p

Grapheme-to-phoneme labels for speech corpora, as a verified library with a
thin command-line program around it.

- `src/` — the library, verified with Verus: tokenization of espeak IPA into
  the versioned label inventory (`parse`, `labels`), the language table and
  the routing of a request to its label source (`language`, `route`), the
  Hindi, Korean, Thai, Japanese and Mandarin label stages (`hindi`,
  `korean`, `thai`, `japanese`, `mandarin`), the conversion of every
  backend's result into one shape (`convert`), and the engine-data archive
  format (`data`).
- `app/` — the program: the espeak-ng engine (C API), unpacking its data,
  the Thai and Korean Python backends, the Hindi schwa classifier, the
  Mandarin polyphone model, the Japanese front end (`jpreprocess`), and the
  `g2p identity | serve | --lang` command line with its JSON wire types.
- `tests/` — the library's tests.

The build environment supplies the digests that make up the identity
(`G2P_ESPEAK_DIGEST`, `G2P_THAI_DIGEST`, `G2P_KOREAN_DIGEST`); a build
without them refuses to report one. At run time the program reads its
resources from the environment: `G2P_ESPEAK_DATA`
(the zstd-compressed engine data), `G2P_THAI_PROJECT` and
`G2P_KOREAN_PROJECT` (the `uv` projects of the Python backends),
`G2P_HINDI_SCHWA_MODEL` (the classifier's weights as JSON) and
`G2P_MANDARIN_DATA` (the directory of g2pM's tables and weights).
