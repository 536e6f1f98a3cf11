//! The scene record as this pipeline sees it: a name, the ordered list of
//! assets the scene requires, the shard names assigned to it, and the scene
//! graph itself as an opaque serialized blob (its semantics live elsewhere).

use vstd::prelude::*;
use crate::strutil::clone_string_vec;

verus! {

/// One scene's contribution to the pipeline.
pub struct Scene {
    pub name: String,
    pub required_assets: Vec<String>,
    pub shards: Vec<String>,
    pub graph: Vec<u8>,
    pub id_space: u32,
}

/// Mathematical model of a scene record.
pub struct SceneV {
    pub name: Seq<char>,
    pub required_assets: Seq<Seq<char>>,
    pub shards: Seq<Seq<char>>,
    pub graph: Seq<u8>,
    pub id_space: u32,
}

impl View for Scene {
    type V = SceneV;

    open spec fn view(&self) -> SceneV {
        SceneV {
            name: self.name@,
            required_assets: self.required_assets.deep_view(),
            shards: self.shards.deep_view(),
            graph: self.graph@,
            id_space: self.id_space,
        }
    }
}

impl Scene {
    /// An empty scene record carrying `name`.
    pub fn new(name: String) -> (r: Scene)
        ensures
            r@.name == name@,
            r@.required_assets =~= Seq::<Seq<char>>::empty(),
            r@.shards =~= Seq::<Seq<char>>::empty(),
            r@.graph =~= Seq::<u8>::empty(),
            r@.id_space == 0,
    {
        Scene {
            name,
            required_assets: Vec::new(),
            shards: Vec::new(),
            graph: Vec::new(),
            id_space: 0,
        }
    }
}

impl Clone for Scene {
    fn clone(&self) -> (r: Self)
        ensures
            r@ == self@,
    {
        let r = Scene {
            name: self.name.clone(),
            required_assets: clone_string_vec(&self.required_assets),
            shards: clone_string_vec(&self.shards),
            graph: self.graph.clone(),
            id_space: self.id_space,
        };
        proof {
            assert(r@ == self@);
        }
        r
    }
}

} // verus!
