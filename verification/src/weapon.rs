//! Kinds of weapons.

use vstd::prelude::*;

verus! {

/// The kind of a weapon.
#[allow(non_camel_case_types, clippy::upper_case_acronyms)]
#[derive(Clone, Copy, Debug, PartialEq, Eq, Structural)]
pub enum WeaponKind {
    GUN,
    BOW,
    STAFF,
}

impl Default for WeaponKind {
    fn default() -> (k: Self)
        ensures
            k == WeaponKind::GUN,
    {
        WeaponKind::GUN
    }
}

} // verus!
