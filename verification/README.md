# kit

The rules behind the `kit` command, verified with Verus: how far a run's plan
has come, whether a plugin is installed and up to date, which test scenarios an
API document asks for, and how a service contract is published.

- `src/` is the library. Every function works on plain values: texts of files,
  outputs of commands, and the library's own types. What a function promises
  stands in its contract. Calls into other crates (YAML, JSON, OpenAPI, Markdown,
  kebab case, SHA-256) stand behind small trusted functions that say what is
  believed of them. Functions named `law_...` state what holds of several
  functions together.
- `tests/` runs the library on examples, with the other crates linked.
- `app/` is the command itself: arguments, files, locks and other commands.

The command of the tool that the plugins are made for is not fixed. The library
takes it as an argument, and `app/` reads it from `KIT_ASSISTANT` and the package
that the tool comes in from `KIT_ASSISTANT_PACKAGE`.
