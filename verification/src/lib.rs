//! Decisions and text processing of a file-serving Varnish backend, with
//! their contracts proved by Verus.
//!
//! - `url_path`: from a request URL to the file under the served root
//!   (query stripping, segment clamping, the path on disk, its extension,
//!   the steps of a symlink-free lookup).
//! - `mime`: the extension-to-mime-type table of a `mime.types` file.
//! - `http`: method check, answers to failed opens, entity tags,
//!   revalidation (304) and the response headers.
//! - `config`: the checks and choices made when a backend is set up.
//! - `dates`: the calendar computations taken from `chrono`.
//! - `text`: character-level helpers.

pub mod text;
pub mod url_path;
pub mod mime;
pub mod dates;
pub mod http;
pub mod config;
