# regatta

Searches a text for a pattern and writes the lines that contain it.

- `src/search.rs`: the model of a text's lines (split at `"\n"` or `"\r\n"`,
  final line ending optional) and of substring occurrence, and `find_matches`,
  which writes every line that contains the pattern, each followed by a newline.
- `src/cli.rs`: `CliArgs`, the validated options (a file path, a non-empty
  pattern, the version), and `CliError`.
- `src/laws.rs`: properties of the line model and of the search output.
- `app/`: the command-line program around the library (clap, file reading,
  the progress spinner, standard output).
