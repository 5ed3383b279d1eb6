use vstd::prelude::*;

use crate::crates::Crate;

verus! {

/// How one dependency is written back into the manifest.
#[derive(Debug)]
pub enum ManifestEntry {
    /// A bare version requirement: the default set is enabled and nothing
    /// else is.
    Version(String),
    /// A table with the version, the listed features, and whether the
    /// default set is used (written out only when it is not).
    Detailed { version: String, features: Vec<String>, default_features: bool },
}

/// Whether `dep` can be written as a bare version requirement.
pub open spec fn is_bare(dep: &Crate) -> bool {
    dep.uses_default_spec() && dep.enabled_non_default_spec().len() == 0
}

/// Decides how `dep`'s current state is written back: a bare version when
/// the default set is enabled and no other feature is; otherwise the
/// version, the enabled features (without the default ones when the
/// default set is enabled), and the default-set flag.
pub fn manifest_entry(dep: &Crate) -> (r: ManifestEntry)
    requires
        dep.shape_ok(),
    ensures
        r is Version <==> is_bare(dep),
        r matches ManifestEntry::Version(v) ==> v@ == dep.version@,
        r matches ManifestEntry::Detailed { version, features, default_features } ==> version@
            == dep.version@ && features@.map_values(|s: String| s@) == dep.enabled_non_default_spec()
            && default_features == dep.uses_default_spec(),
{
    let uses_default = dep.uses_default();
    let features = dep.get_enabled_features();
    if uses_default && features.len() == 0 {
        ManifestEntry::Version(dep.get_version())
    } else {
        ManifestEntry::Detailed { version: dep.get_version(), features, default_features: uses_default }
    }
}

} // verus!
