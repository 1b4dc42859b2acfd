//! Resolves shell aliases: parses `name='command'` definitions, drops the ones
//! that refer to themselves, expands alias chains and finds the aliases whose
//! expansion equals the longest leading part of a typed command line.

pub mod alias;
pub mod cycles;
pub mod expansion;
pub mod lookup;
pub mod pattern;
pub mod resolve;
pub mod text;
pub mod validation;

pub use alias::{render_all, Alias, AliasError, Command, Name, NewType};
pub use expansion::expand_command;
pub use resolve::find_alias;
