# dualis_notifier

Checks Dualis for new or changed grades and reports them through Gotify.

The library in `src/` holds the logic, each function with a contract that
Verus proves. The small functions that call an outside crate (marked
`#[verifier::external_body]`) have contracts that are trusted, not proved.

The modules:

- `config`: `.env` parsing and the configuration read from the settings.
- `dualis`: the login response, request URLs and form, and decoding of the
  results page.
- `parse`, `spans`: the results table as `pandas.read_html` reads it.
- `table`, `text`, `compare`: tables of strings, whitespace rules and the
  comparison form of grade values.
- `state`, `state_laws`: reconciling the cache with the latest results, and
  what that promises over several runs.
- `cache`: the cache file: its CSV bytes read into a table and written back.
- `gotify`, `notifier`: the notifications and what one check does.
- `schedule`: check windows and the jittered interval.
- `matching`: the regular expressions, run by the regex crate.

`app/` is the program around it: command line, HTTP, files, the signal
handler, the sleep loop and the floating-point formatting of numbers.
