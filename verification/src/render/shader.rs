//! The two shader sources of a pipeline.

use vstd::prelude::*;
use crate::resources::{ends_with_parts, parts, path_ends_with};

verus! {

/// The paths of a vertex and a fragment shader, each as its components.
#[derive(Debug, Eq, PartialEq)]
pub struct ShaderPair {
    pub vertex_path: Vec<Vec<u8>>,
    pub fragment_path: Vec<Vec<u8>>,
}

impl ShaderPair {
    /// Whether a path ends with the vertex path or with the fragment path,
    /// by whole components.
    pub open spec fn holds(&self, path: Seq<Seq<u8>>) -> bool {
        ends_with_parts(path, parts(&self.vertex_path)) || ends_with_parts(
            path,
            parts(&self.fragment_path),
        )
    }

    pub fn contains(&self, path: &Vec<Vec<u8>>) -> (found: bool)
        ensures
            found == self.holds(parts(path)),
    {
        path_ends_with(path, &self.vertex_path) || path_ends_with(path, &self.fragment_path)
    }

    pub fn for_paths(vertex_path: Vec<Vec<u8>>, fragment_path: Vec<Vec<u8>>) -> (pair: ShaderPair)
        ensures
            pair.vertex_path == vertex_path,
            pair.fragment_path == fragment_path,
    {
        ShaderPair { vertex_path, fragment_path }
    }
}

/// The bytes of the two shaders.
pub struct ShaderData {
    pub vertex_data: Vec<u8>,
    pub fragment_data: Vec<u8>,
}

} // verus!
