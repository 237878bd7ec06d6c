# phrase_rules

Learns a vocabulary and translation rules from a source text, its line-by-line
translation and a dictionary of parts of speech, and proves the learning
functions against their specifications with Verus.

- `src/table.rs`: association lists (by word, part name or slot number) and
  the string comparison they rest on.
- `src/phrase.rs`: rules (`Phrase`, `Rule`), readings (`Ready`), and
  `match_phrase`, which reads a sentence as a phrase of a part of speech.
- `src/assemble.rs`: `spread_phrase`, which turns a reading into a flat rule
  of the target language.
- `src/deduce.rs`: `deduce_rule` and `deduce_pair_rule`, which deduce new rule
  pairs for what the known rules leave unexplained.
- `src/text.rs`: cutting text into lines and words.
- `src/learn.rs`: the learner: the two passes over the sentence pairs and the
  report.
- `app/main.rs`: reads `original.txt`, `translated.txt` and `dictionary.txt`
  and prints what was learnt.

Each executable function states its result exactly through a spec function
that returns `None` on the inputs where the computation would panic, overflow
or (for the matcher) not come back; the functions require `Some`.
