//! The order of semantic versions: majors first, then minors, then patches.

use vstd::prelude::*;

use core::cmp::Ordering;

use vstd::std_specs::cmp::PartialOrdSpecImpl;

use crate::version::{semver_lt, SemVer};

verus! {

/// How `a` relates to `b` in version order.
pub open spec fn semver_order(a: SemVer, b: SemVer) -> Ordering {
    if semver_lt(a, b) {
        Ordering::Less
    } else if a == b {
        Ordering::Equal
    } else {
        Ordering::Greater
    }
}

impl PartialOrdSpecImpl for SemVer {
    open spec fn obeys_partial_cmp_spec() -> bool {
        true
    }

    open spec fn partial_cmp_spec(&self, other: &SemVer) -> Option<Ordering> {
        Some(semver_order(*self, *other))
    }
}

impl PartialOrd for SemVer {
    fn partial_cmp(&self, other: &SemVer) -> (r: Option<Ordering>) {
        if self.major != other.major {
            if self.major < other.major {
                Some(Ordering::Less)
            } else {
                Some(Ordering::Greater)
            }
        } else if self.minor != other.minor {
            if self.minor < other.minor {
                Some(Ordering::Less)
            } else {
                Some(Ordering::Greater)
            }
        } else if self.patch < other.patch {
            Some(Ordering::Less)
        } else if self.patch > other.patch {
            Some(Ordering::Greater)
        } else {
            Some(Ordering::Equal)
        }
    }
}

} // verus!
