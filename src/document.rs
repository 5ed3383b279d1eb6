use vstd::prelude::*;

use crate::crates::{Crate, FeatureError};
use crate::manifest::{is_bare, manifest_entry, ManifestEntry};

verus! {

/// The dependencies declared by a manifest, each with its feature graph.
pub struct Document {
    pub crates: Vec<Crate>,
}

impl Document {
    /// Every dependency is well formed.
    pub open spec fn wf(&self) -> bool {
        forall|i: int| 0 <= i < self.crates@.len() ==> (#[trigger] self.crates@[i]).wf()
    }

    /// Takes the dependencies read from the manifest; `None` when it has no
    /// dependency table at all.
    pub fn new(dependencies: Option<Vec<Crate>>) -> (r: Result<Document, FeatureError>)
        ensures
            r is Err <==> dependencies is None,
            r is Err ==> r == Err::<Document, FeatureError>(FeatureError::NoDependenciesFound),
            r matches Ok(d) ==> d.crates@ == dependencies->0@,
    {
        match dependencies {
            Some(crates) => Ok(Document { crates }),
            None => Err(FeatureError::NoDependenciesFound),
        }
    }

    pub fn get_deps(&self) -> (r: &Vec<Crate>)
        ensures
            r@ == self.crates@,
    {
        &self.crates
    }

    /// The dependency at `index`.
    pub fn get_dep(&self, index: usize) -> (r: Result<&Crate, FeatureError>)
        ensures
            r is Ok <==> index < self.crates@.len(),
            r matches Ok(c) ==> *c == self.crates@[index as int],
            r is Err ==> r == Err::<&Crate, FeatureError>(FeatureError::StaleSelection),
    {
        if index < self.crates.len() {
            Ok(&self.crates[index])
        } else {
            Err(FeatureError::StaleSelection)
        }
    }

    /// What to write back for the dependency at `dep_index`: its name and
    /// its entry.
    pub fn write_dep(&self, dep_index: usize) -> (r: Result<(String, ManifestEntry), FeatureError>)
        requires
            self.wf(),
        ensures
            r is Ok <==> dep_index < self.crates@.len(),
            r is Err ==> r == Err::<(String, ManifestEntry), FeatureError>(FeatureError::StaleSelection),
            r matches Ok(p) ==> p.0@ == self.crates@[dep_index as int].name@ && (p.1 is Version
                <==> is_bare(&self.crates@[dep_index as int])),
            r matches Ok(p) ==> (p.1 matches ManifestEntry::Version(v) ==> v@
                == self.crates@[dep_index as int].version@),
            r matches Ok(p) ==> (p.1 matches ManifestEntry::Detailed {
                version,
                features,
                default_features,
            } ==> version@ == self.crates@[dep_index as int].version@ && features@.map_values(
                |s: String| s@,
            ) == self.crates@[dep_index as int].enabled_non_default_spec() && default_features
                == self.crates@[dep_index as int].uses_default_spec()),
    {
        if dep_index >= self.crates.len() {
            return Err(FeatureError::StaleSelection);
        }
        let dep = &self.crates[dep_index];
        Ok((dep.get_name(), manifest_entry(dep)))
    }
}

} // verus!
