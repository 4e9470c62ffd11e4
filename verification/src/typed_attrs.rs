//! Typed attributes: a type per attribute name, checked at compile time.

use vstd::prelude::*;

verus! {

/// An attribute known by type; `NAME` is the name it is stored under.
pub trait TypedAttr: 'static {
    const NAME: &'static str;
    /// Whether the attribute is a tag (1 when present).
    const IS_TAG: bool = false;
}

} // verus!
