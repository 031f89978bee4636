//! Path patterns made of literal, wildcard (`*`) and glob (`**`) levels, and a
//! decision procedure for whether two patterns can match a common path.
use vstd::prelude::*;

pub mod fragment;
pub mod path;
pub mod syntax;

pub use fragment::{Fragment, FragmentView, ParseError};
pub use path::Path;

verus! {

} // verus!
