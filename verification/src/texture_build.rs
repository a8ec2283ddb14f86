//! The texture build step: which texture metadata files need their texture
//! recompiled, and the `toktx` command line that compiles one.

use vstd::prelude::*;
use crate::keyed::KeyedRows;
use crate::mod_loading::views;
use crate::text::{ends_with, drop_end, strip_suffix};

verus! {

/// The ending of a texture metadata file; the texture it describes has the same
/// name without it.
pub const META_SUFFIX: &'static str = ".ktx2.ron";

/// The channels of a compiled texture.
#[derive(Clone, Copy, Debug, PartialEq, Eq, Structural)]
pub enum TargetType {
    RGBA,
    RGB,
}

impl Default for TargetType {
    fn default() -> (t: TargetType)
        ensures
            t == TargetType::RGBA,
    {
        TargetType::RGBA
    }
}

impl TargetType {
    /// The name `toktx` knows the type by.
    pub open spec fn spec_name(self) -> Seq<char> {
        match self {
            TargetType::RGBA => "RGBA"@,
            TargetType::RGB => "RGB"@,
        }
    }

    /// The name `toktx` knows the type by.
    pub fn name(&self) -> (r: &'static str)
        ensures
            r@ == self.spec_name(),
    {
        match self {
            TargetType::RGBA => "RGBA",
            TargetType::RGB => "RGB",
        }
    }
}

/// How a texture is to be compiled.
#[derive(Clone, Debug)]
pub struct TextureMeta {
    pub encode: String,
    pub is_normal: bool,
    pub should_gen_mipmaps: bool,
    pub target_type: TargetType,
}

/// Whether mipmaps are generated when the metadata does not say.
pub fn default_should_gen_mipmaps() -> (r: bool)
    ensures
        r,
{
    true
}

/// The modification times of a texture and of its metadata when it was last
/// compiled, in nanoseconds from the Unix epoch (negative before it).
#[derive(Clone, Copy, Debug, PartialEq, Eq, Structural)]
pub struct Timestamp {
    pub asset: i128,
    pub meta: i128,
}

/// The texture that a file describes when it is a metadata file: its name
/// without `.ktx2.ron`.
pub fn meta_target(file_name: &str) -> (r: Option<String>)
    ensures
        match r {
            Some(t) => ends_with(file_name@, META_SUFFIX@) && t@ == drop_end(
                file_name@,
                META_SUFFIX@.len(),
            ),
            None => !ends_with(file_name@, META_SUFFIX@),
        },
{
    strip_suffix(file_name, META_SUFFIX)
}

/// Whether a texture is compiled again: when its output is missing, when it was
/// never compiled, or when it or its metadata changed since.
pub open spec fn needs_rebuild(
    cache: Map<Seq<char>, Timestamp>,
    target: Seq<char>,
    out_exists: bool,
    meta_modified: i128,
    target_modified: i128,
) -> bool {
    !out_exists || !cache.dom().contains(target) || meta_modified != cache[target].meta
        || target_modified != cache[target].asset
}

/// A texture is compiled again when its output is missing, when it was never
/// compiled, or when the recorded time of it or of its metadata differs from the
/// current one; with its output present and both times as recorded, it is not.
pub proof fn lemma_rebuild_cases(
    cache: Map<Seq<char>, Timestamp>,
    target: Seq<char>,
    out_exists: bool,
    meta_modified: i128,
    target_modified: i128,
)
    ensures
        !out_exists ==> needs_rebuild(cache, target, out_exists, meta_modified, target_modified),
        !cache.dom().contains(target) ==> needs_rebuild(cache, target, out_exists, meta_modified, target_modified),
        cache.dom().contains(target) && cache[target].meta != meta_modified ==> needs_rebuild(
            cache,
            target,
            out_exists,
            meta_modified,
            target_modified,
        ),
        cache.dom().contains(target) && cache[target].asset != target_modified ==> needs_rebuild(
            cache,
            target,
            out_exists,
            meta_modified,
            target_modified,
        ),
        out_exists && cache.dom().contains(target) && cache[target] == (Timestamp {
            asset: target_modified,
            meta: meta_modified,
        }) ==> !needs_rebuild(cache, target, out_exists, meta_modified, target_modified),
{
}

/// Once a texture has been compiled and recorded, it is not compiled again until
/// it, its metadata or its output changes.
pub proof fn lemma_refresh_settles(
    cache: Map<Seq<char>, Timestamp>,
    target: Seq<char>,
    meta_modified: i128,
    target_modified: i128,
)
    ensures
        !needs_rebuild(
            cache.insert(target, Timestamp { asset: target_modified, meta: meta_modified }),
            target,
            true,
            meta_modified,
            target_modified,
        ),
{
}

/// The times at which each texture was last compiled, by texture path.
pub struct BuildCache {
    entries: KeyedRows<Timestamp>,
}

impl View for BuildCache {
    type V = Map<Seq<char>, Timestamp>;

    closed spec fn view(&self) -> Map<Seq<char>, Timestamp> {
        self.entries@
    }
}

impl Default for BuildCache {
    fn default() -> (c: BuildCache)
        ensures
            c@ == Map::<Seq<char>, Timestamp>::empty(),
    {
        BuildCache { entries: KeyedRows::new() }
    }
}

impl BuildCache {
    /// Where the cache is kept, under the build directory of the compiler.
    pub const FILE: &'static str = "target/bifrons_asset_buildcache.ron";

    /// When the texture at `target` was last compiled.
    pub fn get(&self, target: &String) -> (r: Option<Timestamp>)
        ensures
            match r {
                Some(t) => self@.dom().contains(target@) && t == self@[target@],
                None => !self@.dom().contains(target@),
            },
    {
        match self.entries.get(target) {
            Some(t) => Some(*t),
            None => None,
        }
    }

    /// Records that the texture at `target` was compiled at these times.
    pub fn insert(&mut self, target: String, stamp: Timestamp)
        ensures
            final(self)@ == old(self)@.insert(target@, stamp),
    {
        self.entries.insert(target, stamp);
    }

    /// The recorded textures with their times.
    pub fn entries(&self) -> (r: &Vec<(String, Timestamp)>)
        ensures
            crate::keyed::entry_map(r@) == self@,
    {
        self.entries.entries()
    }

    /// Decides whether the texture at `target` is compiled again and, when it
    /// is, records the times it is compiled at.
    pub fn refresh(&mut self, target: String, out_exists: bool, meta_modified: i128, target_modified: i128) -> (rebuild: bool)
        ensures
            rebuild == needs_rebuild(old(self)@, target@, out_exists, meta_modified, target_modified),
            final(self)@ == if rebuild {
                old(self)@.insert(target@, Timestamp { asset: target_modified, meta: meta_modified })
            } else {
                old(self)@
            },
    {
        let rebuild = !out_exists || match self.get(&target) {
            Some(t) => meta_modified != t.meta || target_modified != t.asset,
            None => true,
        };
        if rebuild {
            self.insert(target, Timestamp { asset: target_modified, meta: meta_modified });
        }
        rebuild
    }
}

/// The arguments of the `toktx` run that compiles `target_path` to `out_path`.
pub open spec fn toktx_args_spec(meta: TextureMeta, out_path: Seq<char>, target_path: Seq<char>) -> Seq<Seq<char>> {
    let head = seq!["--t2"@, "--zcmp"@, "--target_type"@, meta.target_type.spec_name()];
    let mips = if meta.should_gen_mipmaps {
        seq!["--genmipmap"@]
    } else {
        Seq::empty()
    };
    let normal = if meta.is_normal {
        seq!["--linear"@, "--input_swizzle"@, "rgb1"@, "--normal_mode"@]
    } else {
        Seq::empty()
    };
    head + mips + normal + seq!["--encode"@, meta.encode@, out_path, target_path]
}

/// The shape of a `toktx` command line: the fixed head naming the target type,
/// then the mipmap flag exactly when mipmaps are asked for (whether or not the
/// texture is a normal map), then the four normal-map flags exactly when it is
/// one, then the encoding and the two paths.
pub proof fn lemma_toktx_args_shape(meta: TextureMeta, out_path: Seq<char>, target_path: Seq<char>)
    ensures
        ({
            let r = toktx_args_spec(meta, out_path, target_path);
            let flags = r.subrange(4, r.len() - 4);
            &&& r.len() == 8 + (if meta.should_gen_mipmaps { 1int } else { 0int }) + (if meta.is_normal {
                4int
            } else {
                0int
            })
            &&& r[0] == "--t2"@ && r[1] == "--zcmp"@ && r[2] == "--target_type"@
            &&& r[3] == meta.target_type.spec_name()
            &&& flags.contains("--genmipmap"@) <==> meta.should_gen_mipmaps
            &&& meta.should_gen_mipmaps ==> r[4] == "--genmipmap"@
            &&& flags.contains("--linear"@) <==> meta.is_normal
            &&& flags.contains("--normal_mode"@) <==> meta.is_normal
            &&& r[r.len() - 4] == "--encode"@
            &&& r[r.len() - 3] == meta.encode@
            &&& r[r.len() - 2] == out_path
            &&& r[r.len() - 1] == target_path
        }),
{
    reveal_strlit("--genmipmap");
    reveal_strlit("--linear");
    reveal_strlit("--input_swizzle");
    reveal_strlit("rgb1");
    reveal_strlit("--normal_mode");
    let r = toktx_args_spec(meta, out_path, target_path);
    let mips = if meta.should_gen_mipmaps {
        seq!["--genmipmap"@]
    } else {
        Seq::<Seq<char>>::empty()
    };
    let normal = if meta.is_normal {
        seq!["--linear"@, "--input_swizzle"@, "rgb1"@, "--normal_mode"@]
    } else {
        Seq::<Seq<char>>::empty()
    };
    let flags = r.subrange(4, r.len() - 4);
    assert(flags =~= mips + normal);
    if meta.should_gen_mipmaps {
        assert(flags[0] == "--genmipmap"@);
    }
    if meta.is_normal {
        assert(flags[mips.len() as int] == "--linear"@);
        assert(flags[mips.len() as int + 3] == "--normal_mode"@);
    }
    if flags.contains("--genmipmap"@) {
        let j = choose|j: int| 0 <= j < flags.len() && flags[j] == "--genmipmap"@;
        if !meta.should_gen_mipmaps {
            assert(flags[j] == normal[j]);
            assert(flags[j].len() != "--genmipmap"@.len());
        }
    }
    if flags.contains("--linear"@) {
        let j = choose|j: int| 0 <= j < flags.len() && flags[j] == "--linear"@;
        if !meta.is_normal {
            assert(flags[j] == mips[j]);
            assert(flags[j].len() != "--linear"@.len());
        }
    }
    if flags.contains("--normal_mode"@) {
        let j = choose|j: int| 0 <= j < flags.len() && flags[j] == "--normal_mode"@;
        if !meta.is_normal {
            assert(flags[j] == mips[j]);
            assert(flags[j].len() != "--normal_mode"@.len());
        }
    }
}

/// The arguments of the `toktx` run that compiles `target_path` to `out_path`.
pub fn toktx_args(meta: &TextureMeta, out_path: &str, target_path: &str) -> (r: Vec<String>)
    ensures
        views(r@) == toktx_args_spec(*meta, out_path@, target_path@),
{
    let mut args: Vec<String> = Vec::new();
    args.push("--t2".to_owned());
    args.push("--zcmp".to_owned());
    args.push("--target_type".to_owned());
    args.push(meta.target_type.name().to_owned());
    let ghost head = views(args@);
    if meta.should_gen_mipmaps {
        args.push("--genmipmap".to_owned());
    }
    let ghost with_mips = views(args@);
    if meta.is_normal {
        args.push("--linear".to_owned());
        args.push("--input_swizzle".to_owned());
        args.push("rgb1".to_owned());
        args.push("--normal_mode".to_owned());
    }
    let ghost with_normal = views(args@);
    args.push("--encode".to_owned());
    args.push(meta.encode.clone());
    args.push(out_path.to_owned());
    args.push(target_path.to_owned());
    let ghost spec = toktx_args_spec(*meta, out_path@, target_path@);
    assert(head =~= seq!["--t2"@, "--zcmp"@, "--target_type"@, meta.target_type.spec_name()]);
    assert(views(args@) =~= spec);
    args
}

/// The text between the first and the last character of `s`: the written cache
/// without the parentheses that wrap it.
pub fn strip_outer_chars(s: &str) -> (r: &str)
    requires
        s@.len() >= 2,
        (s@[0] as u32) < 128,
        (s@.last() as u32) < 128,
    ensures
        r@ == s@.subrange(1, s@.len() - 1),
{
    let n = s.unicode_len();
    s.substring_char(1, n - 1)
}

} // verus!
