//! Layered image storage: where layers and container overlays live, and the
//! options of an overlayfs mount.
use vstd::prelude::*;
use crate::config::string_views;
use crate::text::{chars_of, extend_chars, join_path, path_join, string_of};

verus! {

/// An overlay of read-only lower layers (bottom to top) and a writable
/// upper layer, merged into one directory.
#[derive(Debug, Clone)]
pub struct OverlayMount {
    pub lower_dirs: Vec<String>,
    pub upper_dir: String,
    /// Work directory (required by overlayfs).
    pub work_dir: String,
    pub merged_dir: String,
}

/// Strings joined with `sep` between them.
pub open spec fn join_with(v: Seq<Seq<char>>, sep: char) -> Seq<char>
    decreases v.len(),
{
    if v.len() == 0 {
        Seq::empty()
    } else if v.len() == 1 {
        v[0]
    } else {
        join_with(v.drop_last(), sep) + seq![sep] + v.last()
    }
}

/// The overlayfs mount options: the lower layers top first, separated by `:`.
pub open spec fn overlay_options(lower: Seq<Seq<char>>, upper: Seq<char>, work: Seq<char>) -> Seq<char> {
    "lowerdir="@ + join_with(lower.reverse(), ':') + ",upperdir="@ + upper + ",workdir="@ + work
}

impl OverlayMount {
    pub fn new(lower_dirs: Vec<String>, upper_dir: String, work_dir: String, merged_dir: String) -> (o: OverlayMount)
        ensures
            o.lower_dirs@ == lower_dirs@,
            o.upper_dir == upper_dir,
            o.work_dir == work_dir,
            o.merged_dir == merged_dir,
    {
        OverlayMount { lower_dirs, upper_dir, work_dir, merged_dir }
    }

    /// The options for mounting this overlay with overlayfs.
    pub fn mount_options(&self) -> (s: String)
        ensures
            s@ == overlay_options(string_views(self.lower_dirs@), self.upper_dir@, self.work_dir@),
    {
        let ghost lv = string_views(self.lower_dirs@);
        let mut out = chars_of("lowerdir=");
        let ghost start = out@;
        let n = self.lower_dirs.len();
        let mut k: usize = 0;
        while k < n
            invariant
                k <= n,
                n == self.lower_dirs@.len(),
                lv == string_views(self.lower_dirs@),
                out@ == start + join_with(lv.reverse().take(k as int), ':'),
            decreases n - k,
        {
            assert(lv.reverse().take(k + 1).drop_last() =~= lv.reverse().take(k as int));
            assert(lv.reverse().take(k + 1).last() == self.lower_dirs@[n - 1 - k]@);
            if k > 0 {
                out.push(':');
            } else {
                assert(lv.reverse().take(0).len() == 0);
            }
            extend_chars(&mut out, self.lower_dirs[n - 1 - k].as_str());
            k += 1;
            assert(out@ =~= start + join_with(lv.reverse().take(k as int), ':'));
        }
        assert(lv.reverse().take(n as int) =~= lv.reverse());
        extend_chars(&mut out, ",upperdir=");
        extend_chars(&mut out, self.upper_dir.as_str());
        extend_chars(&mut out, ",workdir=");
        extend_chars(&mut out, self.work_dir.as_str());
        string_of(&out)
    }
}

/// Storage for image layers and container overlays under a base directory.
#[derive(Debug, Clone)]
pub struct LayerStore {
    base_dir: String,
}

/// A digest made safe as a file name: `:` and `/` become `_`.
pub open spec fn safe_name(d: Seq<char>) -> Seq<char> {
    d.map_values(|c: char| if c == ':' || c == '/' { '_' } else { c })
}

impl LayerStore {
    pub closed spec fn base(&self) -> Seq<char> {
        self.base_dir@
    }

    pub fn new(base_dir: String) -> (s: LayerStore)
        ensures
            s.base() == base_dir@,
    {
        LayerStore { base_dir }
    }

    /// The directory of the layer with `digest`.
    pub fn layer_dir(&self, digest: &str) -> (p: String)
        ensures
            p@ == path_join(path_join(self.base(), "layers"@), safe_name(digest@)),
    {
        let d = chars_of(digest);
        let mut s: Vec<char> = Vec::new();
        let mut i: usize = 0;
        while i < d.len()
            invariant
                i <= d@.len(),
                d@ == digest@,
                s@ == safe_name(d@.take(i as int)),
            decreases d@.len() - i,
        {
            let c = d[i];
            s.push(if c == ':' || c == '/' { '_' } else { c });
            i += 1;
            assert(s@ =~= safe_name(d@.take(i as int)));
        }
        assert(d@.take(d@.len() as int) =~= d@);
        let layers = join_path(self.base_dir.as_str(), "layers");
        let name = string_of(&s);
        join_path(layers.as_str(), name.as_str())
    }

    /// The overlay of container `container_name` over the given layers:
    /// `containers/<name>/{upper,work,merged}`, the layers' directories below.
    pub fn overlay_for(&self, container_name: &str, layer_digests: &Vec<String>) -> (o: OverlayMount)
        ensures
            o.lower_dirs@.len() == layer_digests@.len(),
            forall|i: int| 0 <= i < layer_digests@.len() ==> (#[trigger] o.lower_dirs@[i])@ == path_join(
                path_join(self.base(), "layers"@),
                safe_name(layer_digests@[i]@),
            ),
            o.upper_dir@ == path_join(path_join(path_join(self.base(), "containers"@), container_name@), "upper"@),
            o.work_dir@ == path_join(path_join(path_join(self.base(), "containers"@), container_name@), "work"@),
            o.merged_dir@ == path_join(path_join(path_join(self.base(), "containers"@), container_name@), "merged"@),
    {
        let cs = join_path(self.base_dir.as_str(), "containers");
        let cdir = join_path(cs.as_str(), container_name);
        let upper = join_path(cdir.as_str(), "upper");
        let work = join_path(cdir.as_str(), "work");
        let merged = join_path(cdir.as_str(), "merged");
        let mut lower: Vec<String> = Vec::new();
        let mut i: usize = 0;
        while i < layer_digests.len()
            invariant
                i <= layer_digests@.len(),
                lower@.len() == i,
                forall|j: int| 0 <= j < i ==> (#[trigger] lower@[j])@ == path_join(
                    path_join(self.base(), "layers"@),
                    safe_name(layer_digests@[j]@),
                ),
            decreases layer_digests@.len() - i,
        {
            let d = self.layer_dir(layer_digests[i].as_str());
            lower.push(d);
            i += 1;
        }
        OverlayMount::new(lower, upper, work, merged)
    }
}

} // verus!
