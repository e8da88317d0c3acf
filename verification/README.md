# money-tally

Adds up currency amounts wherever they show up in text and prints a total
per currency symbol or code. The recognition of amounts, the per-currency
totals, the command-line parsing and the report are a verified library;
`app/main.rs` reads the input one line at a time and prints.

Layout of `src/`:

- `text.rs` — character classes and string helpers.
- `amount.rs` — one amount (`1,234.56`) and one currency code (`USD`).
- `currency.rs` — `Currency`, its order, and the `--map` symbol map.
- `scanner.rs` — every amount of a line (`find_amounts`).
- `keyed.rs` — maps held as sequences of pairs with distinct keys.
- `tally.rs` — per-currency totals and counts (`scan`, `merge_into`).
- `format.rs` — `format_cents` and the report lines.
- `args.rs` — command-line arguments and their errors.
- `laws.rs` — properties of the library as a whole.

Where plain integer arithmetic would overflow, the library reports it
(`ScanError`, `ArgsError::ValueTooLarge`, `can_merge`) and the program stops
with an overflow panic.
