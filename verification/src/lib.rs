//! Bounded context evidence.
pub mod base64;
pub mod braces;
pub mod bridge;
pub mod capture;
pub mod capture_report;
pub mod cli;
pub mod config;
pub mod deletion;
pub mod destinations;
pub mod destructive_guard;
pub mod digest;
pub mod dirs;
pub mod encoding;
pub mod encoding_suspects;
pub mod files;
pub mod files_report;
pub mod globs;
pub mod grep;
pub mod grep_scan;
pub mod guard_check;
pub mod guard_laws;
pub mod hex;
pub mod hook_guard;
pub mod json;
pub mod json_find;
pub mod json_input;
pub mod json_pointer;
pub mod json_select;
pub mod json_select_output;
pub mod lines;
pub mod msys_arguments;
pub mod numbers;
pub mod ordering;
pub mod output;
pub mod paths;
pub mod process_boundary;
pub mod program;
pub mod project_files;
pub mod project_receipt;
pub mod project_setup;
pub mod project_uninstall;
pub mod setup_laws;
pub mod setup_report;
pub mod shell_laws;
pub mod shell_parse;
pub mod shell_text;
pub mod slice;
pub mod sqlite;
pub mod sqlite_params;
pub mod sqlite_schema;
pub mod strings;
pub mod text;
pub mod user_setup;
pub mod versions;
