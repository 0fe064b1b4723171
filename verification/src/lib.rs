//! Import-boundary rules for Python projects: which modules may import which,
//! as declared in a project's `pyproject.toml`.
pub mod text;
pub mod syntax;
pub mod config;
pub mod mapping;
pub mod imports;
pub mod lint;
pub mod store;
pub mod discover;
pub mod position;
pub mod settings;

pub use config::{
    config_from_document, default_src_roots, is_ignored, is_submodules_token, ConfigError,
    CustomsConfig, ModuleRule, PyProject, ToolSection,
};
pub use imports::{extract_imports, resolve_relative, Import};
pub use discover::{
    exit_status, is_python_file, is_pyproject, is_skipped_dir, pyproject_candidates,
    pyproject_for_file,
};
pub use lint::{lint_imports, lint_source, Violation};
pub use position::{point_to_position, Position};
pub use mapping::{file_to_module, is_package_file, relative_to_module};
pub use syntax::{parse_tree, syntax_nodes, Point, SyntaxNode};
pub use store::{ConfigStore, FileStamp, StoreAction};
pub use text::is_module_or_submodule;
pub use settings::{debounce_ms, DEFAULT_DEBOUNCE_MS};
