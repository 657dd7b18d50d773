//! A bundler core for ECMAScript modules: module ordering, side-effect
//! propagation, export resolution, import binding, tree shaking, code
//! splitting, chunk naming and chunk rendering helpers, each verified
//! against its specification.
pub mod util;
pub mod types;
pub mod reach;
pub mod sort_modules;
pub mod tree_shaking;
pub mod code_splitting;
pub mod strings;
pub mod render;
pub mod generator;
pub mod bind;
pub mod side_effects;
pub mod wrap;
pub mod exports_kind;
pub mod loader;
pub mod naming;
pub mod css;
pub mod module_exports;
pub mod dependencies;
pub mod member_exprs;
pub mod output;
pub mod export_info;
pub mod needed_symbols;
pub mod entries;
pub mod js_ast;
pub mod side_effect_detector;
pub mod namespace_object;
pub mod import_meta;
pub mod finalizer;
pub mod external_bindings;
