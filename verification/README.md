# aki-mline

`aki-mline` prints the lines of its input that match regular expressions
(`-e`) or plain strings (`-s`), like `grep`: it can print the lines that do
not match instead (`-i`), print lines around each match (`--around <num>`),
and put color sequences around the matching strings (`--color <when>`).

The library is written in Verus; each function carries a contract that the
verifier proves.

- `src/conf/`: the command line. `parse.rs` reads the options from the
  tokens of `flood_tide`'s lexer into the configuration, or into the errors
  and messages the command prints.
- `src/matcher.rs`: the searches, by `regex` and by `naive_opt`.
- `src/ranges.rs`: sorting and merging the byte ranges of the matches.
- `src/highlight.rs`: putting the color sequences around the merged ranges.
- `src/run.rs`: the line-by-line filter with its context lines, as a state
  machine over the input lines, and the laws it keeps.
- `src/docs.rs`: the help block of the crate documentation.
- `src/util/`: the `--around` number, the `--color` word, small text facts.
- `app/`: the command itself: the process's arguments, environment and
  streams.
- `tests/`: the tests of the library and of the whole filter.
