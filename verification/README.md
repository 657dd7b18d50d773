# minipack

The core of a JavaScript bundler, written in Verus: every function in `src/` carries a
contract. Verus proves them all but those of the six `#[verifier::external_body]`
wrappers, which only call an outside function (`css-module-lexer`, `itoa`,
`sanitize-filename`, and std's `Path::file_stem`, `String::push` and `Debug` for
strings); their contracts are trusted, and each one's doc comment says what it claims.

## Layout

- `src/types.rs`: modules, import records, statements, symbols and the symbol table.
- Scanning: `js_ast.rs` (the syntax a side-effect check reads) and
  `side_effect_detector.rs`; `loader.rs` (which ids become modules, module types, side
  effects of loaded modules); `entries.rs` (checking user entries); `css.rs` (CSS
  dependencies, through `css-module-lexer`).
- Linking: `sort_modules.rs`, `side_effects.rs`, `wrap.rs`, `exports_kind.rs`,
  `bind.rs` (resolving `export *` and binding imports), `external_bindings.rs` (one
  symbol for each name imported from an external module), `member_exprs.rs`,
  `dependencies.rs`, `module_exports.rs`, `export_info.rs`, `needed_symbols.rs`,
  `tree_shaking.rs`.
- Generating: `code_splitting.rs`, `naming.rs` (chunk names, through `itoa` and
  `sanitize-filename`), `render.rs`, `generator.rs`, `namespace_object.rs`,
  `finalizer.rs`, `import_meta.rs`, `output.rs`.
- Helpers: `strings.rs`, `reach.rs`, `util.rs`.
- `app/lib.rs`: the file system and the loading loop around the library.
- `tests/`: scenarios on concrete module graphs.
