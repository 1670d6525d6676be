//! Steam Guard style time-based one-time codes, with a small persisted
//! store of named shared secrets.

use vstd::prelude::*;

pub mod codegen;
pub mod json;
pub mod store;

pub use codegen::CodeError;
pub use codegen::generate_steam_guard_code;
pub use codegen::normalize;
pub use json::config_from_json;
pub use json::config_to_json;
pub use json::load_config;
pub use store::Config;
pub use store::Secret;
pub use store::SecretView;
pub use store::get_config_path;

verus! {

/// Relies on `String::push` of std: it appends the given character to
/// the end of the string.
pub assume_specification[ String::push ](s: &mut String, c: char)
    ensures
        final(s)@ == old(s)@.push(c),
;

} // verus!
