//! Which resources a set of changed files asks to load again.
//!
//! A path stands here as the list of its components, each component as its
//! bytes: that is all these rules read of a path.

use vstd::prelude::*;
use crate::render::shader::ShaderPair;

verus! {

/// The components of a path, each as the sequence of its bytes.
pub open spec fn parts(path: &Vec<Vec<u8>>) -> Seq<Seq<u8>> {
    path@.map_values(|part: Vec<u8>| part@)
}

/// Whether the components of `inner` stand in `path` from position `at` on.
pub open spec fn stands_at(path: Seq<Seq<u8>>, inner: Seq<Seq<u8>>, at: int) -> bool {
    &&& 0 <= at
    &&& at + inner.len() <= path.len()
    &&& path.subrange(at, at + inner.len()) == inner
}

/// Whether the components of `inner` stand somewhere in `path`, one after
/// the other.
pub open spec fn holds_run(path: Seq<Seq<u8>>, inner: Seq<Seq<u8>>) -> bool {
    exists|at: int| stands_at(path, inner, at)
}

/// Whether the components of `suffix` are the last components of `path`.
pub open spec fn ends_with_parts(path: Seq<Seq<u8>>, suffix: Seq<Seq<u8>>) -> bool {
    stands_at(path, suffix, path.len() - suffix.len())
}

/// Whether two components are the same bytes.
fn same_part(a: &Vec<u8>, b: &Vec<u8>) -> (same: bool)
    ensures
        same == (a@ == b@),
{
    if a.len() != b.len() {
        return false;
    }
    let mut k: usize = 0;
    while k < a.len()
        invariant
            a.len() == b.len(),
            0 <= k <= a.len(),
            forall|n: int| 0 <= n < k ==> a@[n] == b@[n],
        decreases a.len() - k,
    {
        if a[k] != b[k] {
            return false;
        }
        k = k + 1;
    }
    assert(a@ =~= b@);
    true
}

/// Whether the components of `inner` stand in `path` from position `at` on.
pub fn run_at(path: &Vec<Vec<u8>>, inner: &Vec<Vec<u8>>, at: usize) -> (found: bool)
    requires
        at + inner.len() <= path.len(),
    ensures
        found == stands_at(parts(path), parts(inner), at as int),
{
    let mut k: usize = 0;
    while k < inner.len()
        invariant
            at + inner.len() <= path.len(),
            0 <= k <= inner.len(),
            forall|n: int| 0 <= n < k ==> path@[at + n]@ == inner@[n]@,
        decreases inner.len() - k,
    {
        if !same_part(&path[at + k], &inner[k]) {
            proof {
                let window = parts(path).subrange(at as int, at + inner.len());
                assert(window[k as int] == path@[at + k]@);
                assert(parts(inner)[k as int] == inner@[k as int]@);
            }
            return false;
        }
        k = k + 1;
    }
    proof {
        assert(parts(path).subrange(at as int, at + inner.len()) =~= parts(inner));
    }
    true
}

/// Whether the components of `parent_path` stand somewhere in `path`, one
/// after the other. A parent without components is not asked about.
pub fn path_contains(parent_path: &Vec<Vec<u8>>, path: &Vec<Vec<u8>>) -> (found: bool)
    requires
        parent_path.len() > 0,
    ensures
        found == holds_run(parts(path), parts(parent_path)),
{
    if parent_path.len() > path.len() {
        return false;
    }
    let last = path.len() - parent_path.len();
    let mut at: usize = 0;
    while at <= last
        invariant
            0 < parent_path.len() <= path.len(),
            last == path.len() - parent_path.len(),
            0 <= at <= last + 1,
            forall|n: int| 0 <= n < at ==> !stands_at(parts(path), parts(parent_path), n),
        decreases last + 1 - at,
    {
        if run_at(path, parent_path, at) {
            return true;
        }
        at = at + 1;
    }
    false
}

/// Whether the components of `suffix` are the last components of `path`.
pub fn path_ends_with(path: &Vec<Vec<u8>>, suffix: &Vec<Vec<u8>>) -> (found: bool)
    ensures
        found == ends_with_parts(parts(path), parts(suffix)),
{
    if suffix.len() > path.len() {
        false
    } else {
        run_at(path, suffix, path.len() - suffix.len())
    }
}

/// The files and directories that are watched for changes.
pub struct FileResources {
    pub resources: Vec<Vec<u8>>,
    pub shader_pair: ShaderPair,
    pub texture_directory: Vec<Vec<u8>>,
    pub font_directory: Vec<Vec<u8>>,
    pub sound_directory: Vec<Vec<u8>>,
}

/// What one changed path asks to load again. A path counts once: as a
/// shader, else as a texture, else as a sound, else as a font.
pub enum Changed {
    Shader,
    Texture,
    Sound,
    Font,
    Nothing,
}

impl FileResources {
    /// What a changed path is to these resources.
    pub open spec fn changed(&self, path: &Vec<Vec<u8>>) -> Changed {
        if self.shader_pair.holds(parts(path)) {
            Changed::Shader
        } else if holds_run(parts(path), parts(&self.texture_directory)) {
            Changed::Texture
        } else if holds_run(parts(path), parts(&self.sound_directory)) {
            Changed::Sound
        } else if holds_run(parts(path), parts(&self.font_directory)) {
            Changed::Font
        } else {
            Changed::Nothing
        }
    }

    /// What the changed paths ask to load again: each kind of resource for
    /// which one of the paths counts.
    pub fn check_reload(&self, paths: &Vec<Vec<Vec<u8>>>) -> (reload: Reload)
        requires
            self.texture_directory.len() > 0,
            self.sound_directory.len() > 0,
            self.font_directory.len() > 0,
        ensures
            reload.shader <==> exists|n: int|
                0 <= n < paths.len() && self.changed(&paths[n]) is Shader,
            reload.texture <==> exists|n: int|
                0 <= n < paths.len() && self.changed(&paths[n]) is Texture,
            reload.sound <==> exists|n: int|
                0 <= n < paths.len() && self.changed(&paths[n]) is Sound,
            reload.font <==> exists|n: int| 0 <= n < paths.len() && self.changed(&paths[n]) is Font,
    {
        let mut reload = Reload::none();
        let mut k: usize = 0;
        while k < paths.len()
            invariant
                self.texture_directory.len() > 0,
                self.sound_directory.len() > 0,
                self.font_directory.len() > 0,
                0 <= k <= paths.len(),
                reload.shader <==> exists|n: int| 0 <= n < k && self.changed(&paths[n]) is Shader,
                reload.texture <==> exists|n: int|
                    0 <= n < k && self.changed(&paths[n]) is Texture,
                reload.sound <==> exists|n: int| 0 <= n < k && self.changed(&paths[n]) is Sound,
                reload.font <==> exists|n: int| 0 <= n < k && self.changed(&paths[n]) is Font,
            decreases paths.len() - k,
        {
            let path = &paths[k];
            if self.shader_pair.contains(path) {
                reload.shader = true;
            } else if path_contains(&self.texture_directory, path) {
                reload.texture = true;
            } else if path_contains(&self.sound_directory, path) {
                reload.sound = true;
            } else if path_contains(&self.font_directory, path) {
                reload.font = true;
            }
            k = k + 1;
        }
        reload
    }
}

pub struct Reload {
    pub shader: bool,
    pub texture: bool,
    pub font: bool,
    pub sound: bool,
}

impl Reload {
    pub fn none() -> (reload: Reload)
        ensures
            !reload.shader,
            !reload.texture,
            !reload.font,
            !reload.sound,
    {
        Reload { shader: false, texture: false, font: false, sound: false }
    }
}

} // verus!
