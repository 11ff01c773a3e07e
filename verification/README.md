# ws2tcp-local

A local HTTP proxy client for `ws2tcp-router`. This crate holds its routing
rules and settings as a library verified with Verus, and a thin program
around it.

- `src/text.rs`: the character-level model (Unicode whitespace, trimming,
  ASCII lower-casing, `str::lines`, lexicographic order of texts).
- `src/domain_set.rs`: a set of domain names kept as a sorted vector.
- `src/routing_rules.rs`: the gfwlist and custom `dstdomain` rule syntaxes,
  base64 and UTF-8 decoding of the downloaded list, host matching, routing
  decisions and request authorities, with the laws of matching.
- `src/cli.rs`, `src/settings.rs`, `src/startup.rs`: proxy modes, the
  choice of each setting (command line over configuration file over
  default), and the startup decisions on credentials and logging.
- `src/paths.rs`: the std path calls the settings make.
- `app/main.rs`: argument parsing, the TOML file, logging, the gfwlist
  download and the SIGUSR1 mode switch.
- `tests/`: scenarios on concrete values.
