//! Script sources carried through the pipeline as opaque text blobs.

use vstd::prelude::*;

verus! {

/// One script source file: its name and its text, passed through untouched.
pub struct ScriptingSource {
    pub name: String,
    pub source: String,
}

/// Mathematical model of a script source.
pub struct ScriptingSourceV {
    pub name: Seq<char>,
    pub source: Seq<char>,
}

impl View for ScriptingSource {
    type V = ScriptingSourceV;

    open spec fn view(&self) -> ScriptingSourceV {
        ScriptingSourceV { name: self.name@, source: self.source@ }
    }
}

impl Clone for ScriptingSource {
    fn clone(&self) -> (r: Self)
        ensures
            r@ == self@,
    {
        ScriptingSource { name: self.name.clone(), source: self.source.clone() }
    }
}

} // verus!
