# Radiant

A strict, Qute-style template language for Rust, with an asynchronous
renderer, Axum integration and a language server. The library in `src/` is
verified with Verus: every public function states what it returns in its
contract, and the laws of the library are public proof functions.

## Layout

| Path | What it holds |
| --- | --- |
| `src/compiler` | lexer, Pratt expression parser, template grammar and parser, validation, outline queries |
| `src/engine` | the value model and its sorted maps, expression operators and the steps of evaluating an expression, render scopes, section plans, the steps of an include and its fragments, engine settings, loaders |
| `src/escape.rs`, `src/media.rs` | escaping for HTML, XML and JSON; media types, their suffixes and `Accept` ranges |
| `src/messages.rs` | message bundles with locale fallback and positional `{0}` arguments |
| `src/paths.rs` | template IDs: normalisation, variant candidates and the order they are tried in, IDs safe for navigation |
| `src/derive.rs` | what the template derives decide: template paths, candidate files, include cycles, field renaming |
| `src/include_loader.rs` | the derive's walk over a template and everything it includes statically, as a state machine that the build drives with file probes and reads |
| `src/tooling` | editor tooling: UTF-16 line index, semantic index, completion, hover and definition, document symbols, the document store, cross-template diagnostics |
| `app/` | the runtime around the library: the asynchronous render driver and its resolvers, the file-system side of the derive's include walk, floating-point arithmetic, Axum extractors and responses, the language server over `tower-lsp` |
| `tests/` | tests of the library |

## Laws

Among the proof functions: reading a map after writing it gives the written
value and leaves other names alone; normalised and navigable template IDs
never leave their root; escaped HTML holds no markup and escaped JSON stays
inside its string; accepted templates pass validation; positions survive a
round trip through the line index; declarations are only ever reported in
their lexical scope; hover and go-to-definition agree on what a name means; an include
restores the scopes and include stack it found; a template lookup takes the
first variant present; the include paths that cycle detection reports are
real, and it misses none; the derive's include walk loads every template
the root reaches through static includes, each once, and reports every
include cycle it meets; a message bundle builds exactly when every
registered message passes its checks.
