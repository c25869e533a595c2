//! A verified preference-persistence engine.
//!
//! Preference domains are named collections of key/value settings backed
//! either by a property-list file on disk or by a native preference
//! service.  This crate holds the verified core: the typed value model,
//! the conversions between that model and the property-list and
//! native-service representations, the document load/mutate/save
//! decisions, the atomic save protocol, and the facade that reads,
//! writes, searches and batches over loaded domains.  The thin I/O shell
//! around it lives outside the library.

mod atomic;
mod backend;
mod convert;
mod dict;
mod document;
mod domain;
mod error;
mod find;
mod native;
mod preferences;
mod render;
mod text;
mod values;

pub use values::PrefValue;
pub use values::Real64;
pub use values::SpecReal;
pub use values::SpecValue;

pub use domain::Domain;
pub use domain::SpecDomain;
pub use domain::parse_domain_arg;

pub use error::PrefError;

pub use dict::dict_del;
pub use dict::dict_find;
pub use dict::dict_has_duplicate_keys;
pub use dict::dict_lookup;
pub use dict::dict_set;
pub use dict::dict_take;

pub use convert::PlistNode;
pub use convert::SpecNode;
pub use convert::plist_to_prefvalue;
pub use convert::prefvalue_to_plist;

pub use native::CfNumber;
pub use native::CfObject;
pub use native::cf_to_pref;
pub use native::cfnumber_to_pref;
pub use native::pref_to_cf;

pub use document::LoadedPlist;
pub use document::SavePlan;
pub use document::interpret_load;
pub use document::save_plan;

pub use atomic::FileMeta;
pub use atomic::SaveState;
pub use atomic::SaveStep;
pub use atomic::apply_step;
pub use atomic::apply_steps;
pub use atomic::run_save;
pub use atomic::save_steps;

pub use backend::ActiveBackend;
pub use backend::select_backend;

pub use preferences::Preferences;
pub use preferences::ReadResult;

pub use find::FindMatch;
pub use find::find_in_value;

pub use render::indent_str;
pub use render::prettify;
pub use render::quote_key;
pub use render::quote_string;

pub use text::char_is_alphanumeric;
pub use text::contains_sub;
pub use text::contains_word;
pub use text::i64_to_string;
pub use text::lowercase;
pub use text::u64_to_string;
pub use text::usize_to_string;
