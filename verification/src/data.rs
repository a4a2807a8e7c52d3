//! The catalog of the standards that are known.

use crate::builder::BuildError;
use crate::format::DirStd;
use crate::rules::{preparable, refuses, Rules};
use crate::text::same_text;
use vstd::prelude::*;

verus! {

/// The known standards, each made ready, and the name of the one that is
/// taken where none is asked for.
#[derive(Debug)]
pub struct Catalog<'a> {
    pub stds: Vec<Rules<'a>>,
    pub default_std_name: String,
}

/// Why a catalog cannot be made of some standards.
#[derive(Debug, Clone, Copy, PartialEq, Eq, Structural)]
pub enum CatalogError {
    /// The standard at that place cannot be made ready.
    Standard { index: usize, error: BuildError },
    /// The weights of the standard at that place add up to more than the
    /// full weight.
    NotNormalized { index: usize },
    /// No standard goes by the name of the default.
    NoDefault,
}

/// The index of the first standard of that name.
pub open spec fn std_index(stds: Seq<Rules>, name: Seq<char>) -> Option<int>
    decreases stds.len(),
{
    if stds.len() == 0 {
        None
    } else {
        match std_index(stds.drop_last(), name) {
            Some(i) => Some(i),
            None => if stds.last().std.name@ == name {
                Some(stds.len() - 1)
            } else {
                None
            },
        }
    }
}

/// The index that `std_index` gives is that of a standard of the name, and
/// the first such.
pub proof fn lemma_std_index(stds: Seq<Rules>, name: Seq<char>)
    ensures
        match std_index(stds, name) {
            Some(i) => 0 <= i < stds.len() && stds[i].std.name@ == name && forall|j: int|
                0 <= j < i ==> (#[trigger] stds[j]).std.name@ != name,
            None => forall|j: int| 0 <= j < stds.len() ==> (#[trigger] stds[j]).std.name@ != name,
        },
    decreases stds.len(),
{
    if stds.len() > 0 {
        let before = stds.drop_last();
        lemma_std_index(before, name);
        match std_index(before, name) {
            Some(i) => {
                assert forall|j: int| 0 <= j < i implies (#[trigger] stds[j]).std.name@ != name by {
                    assert(before[j] == stds[j]);
                }
                assert(before[i] == stds[i]);
            },
            None => {
                assert forall|j: int| 0 <= j < before.len() implies (#[trigger] stds[j]).std.name@
                    != name by {
                    assert(before[j] == stds[j]);
                }
            },
        }
    }
}

impl<'a> Catalog<'a> {
    /// Makes the catalog of the standards given, in their order, or says
    /// what is wrong with the first standard that cannot be taken: it
    /// cannot be made ready, or its weights are not normalized. Where all
    /// are taken and none has the name of the default, that is said.
    pub fn new(stds: &'a Vec<DirStd>, default_std_name: String) -> (r: Result<
        Catalog<'a>,
        CatalogError,
    >)
        ensures
            r is Ok <==> (forall|i: int|
                0 <= i < stds@.len() ==> preparable(&#[trigger] stds@[i])
                    && stds@[i].is_normalized()) && (exists|i: int|
                0 <= i < stds@.len() && (#[trigger] stds@[i]).name@ == default_std_name@),
            match r {
                Ok(catalog) => {
                    &&& catalog.wf()
                    &&& catalog.default_std_name == default_std_name
                    &&& catalog.stds@.len() == stds@.len()
                    &&& forall|i: int|
                        0 <= i < stds@.len() ==> (#[trigger] catalog.stds@[i]).std == &stds@[i]
                },
                Err(CatalogError::Standard { index, error }) => {
                    &&& index < stds@.len()
                    &&& !preparable(&stds@[index as int])
                    &&& refuses(&stds@[index as int], error)
                    &&& forall|i: int|
                        0 <= i < index ==> preparable(&#[trigger] stds@[i])
                            && stds@[i].is_normalized()
                },
                Err(CatalogError::NotNormalized { index }) => {
                    &&& index < stds@.len()
                    &&& preparable(&stds@[index as int])
                    &&& !stds@[index as int].is_normalized()
                    &&& forall|i: int|
                        0 <= i < index ==> preparable(&#[trigger] stds@[i])
                            && stds@[i].is_normalized()
                },
                Err(CatalogError::NoDefault) => {
                    &&& forall|i: int|
                        0 <= i < stds@.len() ==> (#[trigger] stds@[i]).name@ != default_std_name@
                    &&& forall|i: int|
                        0 <= i < stds@.len() ==> preparable(&#[trigger] stds@[i])
                            && stds@[i].is_normalized()
                },
            },
    {
        let mut ready: Vec<Rules<'a>> = Vec::new();
        let mut i: usize = 0;
        while i < stds.len()
            invariant
                i <= stds@.len(),
                ready@.len() == i,
                forall|j: int|
                    0 <= j < i ==> (#[trigger] ready@[j]).wf() && ready@[j].std == &stds@[j],
                forall|j: int|
                    0 <= j < i ==> preparable(&#[trigger] stds@[j]) && stds@[j].is_normalized(),
            decreases stds@.len() - i,
        {
            let std = &stds[i];
            let rules = match Rules::prepare(std) {
                Ok(rules) => rules,
                Err(error) => {
                    return Err(CatalogError::Standard { index: i, error });
                },
            };
            if !std.check_normalized() {
                return Err(CatalogError::NotNormalized { index: i });
            }
            ready.push(rules);
            i = i + 1;
        }
        let catalog = Catalog { stds: ready, default_std_name };
        match catalog.get(catalog.default_std_name.as_str()) {
            Some(found) => {
                proof {
                    lemma_std_index(catalog.stds@, default_std_name@);
                    assert(stds@[found as int].name@ == default_std_name@);
                }
                Ok(catalog)
            },
            None => {
                proof {
                    lemma_std_index(catalog.stds@, default_std_name@);
                    assert forall|j: int| 0 <= j < stds@.len() implies (#[trigger] stds@[j]).name@
                        != default_std_name@ by {
                        assert(catalog.stds@[j].std.name@ != default_std_name@);
                    }
                }
                Err(CatalogError::NoDefault)
            },
        }
    }

    /// Whether every standard is ready and normalized, and the default is
    /// among them.
    pub open spec fn wf(&self) -> bool {
        &&& forall|i: int|
            0 <= i < self.stds@.len() ==> (#[trigger] self.stds@[i]).wf()
                && self.stds@[i].std.is_normalized()
        &&& self.has(self.default_std_name@)
    }

    /// Whether the catalog holds a standard of that name.
    pub open spec fn has(&self, name: Seq<char>) -> bool {
        std_index(self.stds@, name) is Some
    }

    /// The index of the first standard of that name.
    pub fn get(&self, name: &str) -> (found: Option<usize>)
        ensures
            match found {
                Some(i) => i < self.stds@.len() && std_index(self.stds@, name@) == Some(i as int),
                None => !self.has(name@),
            },
    {
        let mut i: usize = 0;
        while i < self.stds.len()
            invariant
                i <= self.stds@.len(),
                forall|j: int| 0 <= j < i ==> (#[trigger] self.stds@[j]).std.name@ != name@,
            decreases self.stds@.len() - i,
        {
            if same_text(self.stds[i].std.name.as_str(), name) {
                proof {
                    lemma_std_index(self.stds@, name@);
                }
                return Some(i);
            }
            i = i + 1;
        }
        proof {
            lemma_std_index(self.stds@, name@);
        }
        None
    }

    /// The names of the standards, in the order of the catalog.
    pub fn names(&self) -> (names: Vec<String>)
        ensures
            names@.len() == self.stds@.len(),
            forall|i: int|
                0 <= i < names@.len() ==> (#[trigger] names@[i])@ == self.stds@[i].std.name@,
    {
        let mut names: Vec<String> = Vec::new();
        let mut i: usize = 0;
        while i < self.stds.len()
            invariant
                i <= self.stds@.len(),
                names@.len() == i,
                forall|j: int| 0 <= j < i ==> (#[trigger] names@[j])@ == self.stds@[j].std.name@,
            decreases self.stds@.len() - i,
        {
            names.push(self.stds[i].std.name.clone());
            i = i + 1;
        }
        names
    }
}

} // verus!
