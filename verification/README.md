# cachelint, verified

A linter for captured HTTP response headers (`curl -D -` dumps): it cuts a
capture into records, parses each record's `Cache-Control` header, and reports
contradictions such as `no-store` beside `max-age`.

- `src/text.rs`: character rules (Unicode whitespace, ASCII case), trimming,
  splitting, decimal numbers.
- `src/cache_control.rs`: the `Cache-Control` parser and its lookups.
- `src/record.rs`: header records and the line-by-line record parser.
- `src/lint.rs`: the checks.
- `src/cli.rs`: argument parsing, JSON escaping, `--strict`, and the text and
  JSON reports.
- `app/main.rs`: the program: reads files or standard input, prints, and exits
  with the status `cli::exit_status` gives (2 after a read error, 1 when
  anything was flagged, 0 otherwise).

Every executable function in `src/` is verified with Verus against a contract
stated over sequences of characters, except one trusted wrapper:
`text::push_char`, whose contract (the string gains that one character at its
end) is assumed of std's `String::push`. `tests/` runs the library on concrete
inputs.

Reading a capture is left to the caller: feed each line (as
`BufRead::read_line` returns it) to `RecordParser::feed_line`, which returns a
`HeaderRecord` whenever one is complete, call `RecordParser::finish` at the end
of the input, and pass each record to `lint`. `app/main.rs` does this with a
`Records` iterator over any `std::io::Read`.
