# limae

The deterministic core of limae, a Markdown linter for Chinese technical
writing, written in Verus: each function states what it returns in its
contract, and Verus proves the code against it.

## Layout

- `src/` is the verified library.
  - `text` — characters, lines and numbers as the rules read them.
  - `config` — the rule table, rule sets, and resolving a configuration from
    command-line flags or a configuration table.
  - `config_text` — a configuration file's text read as TOML, and what a
    found `limae.toml` or `pyproject.toml` contributes.
  - `directives` — inline `limae-disable` / `limae-enable` comments and the
    rule masks they put on lines.
  - `markdown` — what the rules leave alone on each line: fences, inline code,
    kana quotations, link destinations and bare URLs.
  - `pattern` — regular expressions from the `regex` crate, named by the
    pattern they were compiled from.
  - `pipeline` — the line view the checker reads.
  - `files` — file text with universal newlines, the `git ls-files` listing
    and the polling of a child process under a time and a size limit, and the
    patterns of a `.limae-ignore` file.
  - `report` — what a command-line run prints at its end, and its exit code.
  - `hook` — the display hook: how a hook process starts, the event on its
    stdin and the JSON it answers with, message state and identifiers, the
    order in which a batch is decided, batch replay, the diff that measures a rewrite,
    and the A/B trial records.
- `tests/` runs the library on concrete inputs.
- `app/` is the part that touches the outside world: files, processes, the
  environment, JSON and TOML, and the random sampling rate.

Calls into outside crates go through small trusted functions whose contracts
say what the crate documents of them; the rest is proved.
