//! phpm: the verified core of a PHP dependency manager with a shared global
//! store.
//!
//! - `text`, `strmap`, `json`: string primitives with their meaning over
//!   `Seq<char>`, a string-keyed sorted map, JSON documents as plain values.
//! - `lockfile`: composer.json and composer.lock read field by field.
//! - `store`: the store's layout, package coordinates, the tree digest.
//! - `acquire`: dist archives (sha1 check, zip unpacking plan) and git plans.
//! - `linker`: sentinel, targets and stale entries of a vendor/ sync.
//! - `autoload`, `classmap`, `php_emit`: the Composer-compatible autoloader.
//! - `bridge`: the Composer CLI behind a `Runner`.
//! - `gc`: gc plans and the project registry.
//! - `cli`: the command line's own decisions.
pub mod text;
pub mod classmap;
pub mod strmap;
pub mod json;
pub mod lockfile;
pub mod autoload;
pub mod php_emit;
pub mod store;
pub mod acquire;
pub mod bridge;
pub mod gc;
pub mod linker;
pub mod cli;
