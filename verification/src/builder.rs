//! The packing orchestrator and atlas builder: searches the candidate canvas
//! sizes for the smallest square the packer accepts, validates the layout,
//! composites the canvas, and assembles the serialized atlas asset.
use vstd::prelude::*;

use crate::atlas::{
    frames_model, frames_disjoint_in_bounds, frames_strictly_sorted, key_lt, AtlasAsset,
    AtlasFrame, AtlasMetadata, AtlasModel, FrameModel, MetaModel, SerializableRect,
};
use crate::imagebuf::Rgba8Image;
use crate::packer::{
    packer_frames, packer_get_frame, packer_insert, packer_limits, packer_new, packer_placed,
    skyline_place, PackerSession,
};
use crate::text::{key_le, str_le};

verus! {

/// One keyed source image.
#[derive(Clone, Debug)]
pub struct ImageFile {
    /// The stable key this image's frame will carry.
    pub id: String,
    /// The decoded pixels.
    pub image: Rgba8Image,
}

/// Errors that can occur while building a `Spritesheet`.
#[derive(Clone, Debug)]
#[non_exhaustive]
pub enum SpritesheetError {
    /// A single image can never fit within the configured maximum canvas.
    CannotPackImage(String),
    /// Compositing the final image failed.
    FailedToExportImage,
    /// Serializing the asset failed.
    ParsingError(String),
    /// The size search exhausted its upper bound.
    FailedToPackImage,
    /// Two input images share a key.
    DuplicateKey(String),
}

/// Configuration for building a `Spritesheet`.
#[derive(Clone, Copy, Debug)]
pub struct SpritesheetBuildConfig {
    /// Maximum width of the canvas.
    pub max_width: u32,
    /// Maximum height of the canvas.
    pub max_height: u32,
    /// Padding on the outer edge of the packed image, in pixels.
    pub border_padding: u32,
    /// Padding between frames, in pixels.
    pub texture_padding: u32,
    /// Whether to leave the metadata out of the serialized asset.
    pub skip_metadata_serialization: bool,
}

/// A built spritesheet: the composited canvas, the atlas asset, and its
/// canonical serialized form.
#[derive(Clone, Debug)]
pub struct Spritesheet {
    /// The composited canvas.
    pub image_data: Rgba8Image,
    /// The atlas asset describing the canvas.
    pub atlas_asset: AtlasAsset,
    /// The canonical serialized form of `atlas_asset`.
    pub atlas_asset_json: String,
}

/// The dimensions of the images, in input order.
pub open spec fn image_dims(images: Seq<ImageFile>) -> Seq<(u32, u32)> {
    images.map(|i: int, f: ImageFile| (f.image.width, f.image.height))
}

/// The keys of the images, in input order.
pub open spec fn image_ids(images: Seq<ImageFile>) -> Seq<Seq<char>> {
    images.map(|i: int, f: ImageFile| f.id@)
}

/// The rectangle for a placed frame.
pub open spec fn rect_of(t: (u32, u32, u32, u32)) -> SerializableRect {
    SerializableRect { x: t.0, y: t.1, w: t.2, h: t.3 }
}

/// Feeds the dimensions to the skyline packer in order: the rectangles it
/// records, or `None` as soon as one does not fit.
pub open spec fn spec_place_seq(limits: (u32, u32, u32, u32), dims: Seq<(u32, u32)>) -> Option<
    Seq<(u32, u32, u32, u32)>,
>
    decreases dims.len(),
{
    if dims.len() == 0 {
        Some(Seq::<(u32, u32, u32, u32)>::empty())
    } else {
        match spec_place_seq(limits, dims.drop_last()) {
            None => None,
            Some(rs) => match skyline_place(
                limits,
                dims.drop_last(),
                dims.last().0,
                dims.last().1,
            ) {
                Some(r) => Some(rs.push(r)),
                None => None,
            },
        }
    }
}

/// Once a prefix fails to pack, the whole list fails.
proof fn lemma_place_seq_extend_none(limits: (u32, u32, u32, u32), dims: Seq<(u32, u32)>, j: int)
    requires
        0 <= j <= dims.len(),
        spec_place_seq(limits, dims.take(j)) is None,
    ensures
        spec_place_seq(limits, dims) is None,
    decreases dims.len() - j,
{
    if j == dims.len() {
        assert(dims.take(j) =~= dims);
    } else {
        assert(dims.take(j + 1).drop_last() =~= dims.take(j));
        lemma_place_seq_extend_none(limits, dims, j + 1);
    }
}

/// The layout is valid for a `size` x `size` canvas with the given border:
/// each rectangle has its image's dimensions, keeps the border clear on all
/// four sides, and no two rectangles overlap.
pub open spec fn valid_layout(
    rs: Seq<(u32, u32, u32, u32)>,
    dims: Seq<(u32, u32)>,
    size: u32,
    border: u32,
) -> bool {
    &&& rs.len() == dims.len()
    &&& forall|k: int|
        0 <= k < rs.len() ==> (#[trigger] rs[k]).2 == dims[k].0 && rs[k].3 == dims[k].1
    &&& forall|k: int|
        0 <= k < rs.len() ==> border <= (#[trigger] rs[k]).0 && border <= rs[k].1 && rs[k].0
            + rs[k].2 + border <= size && rs[k].1 + rs[k].3 + border <= size
    &&& forall|k: int, l: int|
        0 <= k < rs.len() && 0 <= l < rs.len() && k != l ==> rect_of(#[trigger] rs[k]).disjoint_from(
            rect_of(#[trigger] rs[l]))
}

/// The packer accepts all images at this square size and the layout it
/// produces is valid.
pub open spec fn accepts_at(border: u32, padding: u32, dims: Seq<(u32, u32)>, size: u32) -> bool {
    match spec_place_seq((size, size, border, padding), dims) {
        Some(rs) => valid_layout(rs, dims, size, border),
        None => false,
    }
}

/// The search over candidate square sizes: doubles from `c`, capped at `cap`,
/// and returns the first accepted size with its layout.
pub open spec fn spec_search(border: u32, padding: u32, dims: Seq<(u32, u32)>, c: int, cap: u32)
    -> Option<(u32, Seq<(u32, u32, u32, u32)>)>
    decreases cap - c,
{
    if c < 1 || c > cap {
        None
    } else {
        let cu = c as u32;
        if accepts_at(border, padding, dims, cu) {
            Some((cu, spec_place_seq((cu, cu, border, padding), dims).unwrap()))
        } else if c == cap {
            None
        } else if 2 * c <= cap {
            spec_search(border, padding, dims, 2 * c, cap)
        } else {
            spec_search(border, padding, dims, cap as int, cap)
        }
    }
}

/// The first candidate size: doubles from 32 until it reaches `bound`.
pub open spec fn spec_start(c: int, bound: int) -> int
    decreases bound - c,
{
    if c < 1 || c >= bound {
        c
    } else if 2 * c >= bound {
        2 * c
    } else {
        spec_start(2 * c, bound)
    }
}

/// The least dimension no image exceeds: the width and height of the largest
/// input image.
pub open spec fn spec_lower_bound(dims: Seq<(u32, u32)>) -> int
    decreases dims.len(),
{
    if dims.len() == 0 {
        1
    } else {
        let rest = spec_lower_bound(dims.drop_last());
        let m = if dims.last().0 >= dims.last().1 {
            dims.last().0 as int
        } else {
            dims.last().1 as int
        };
        if m >= rest {
            m
        } else {
            rest
        }
    }
}

/// What the search returns is an accepted candidate, and no smaller candidate
/// reachable from `c` is accepted: the chosen canvas is minimal among the
/// candidates tried.
pub proof fn lemma_search_minimal(
    border: u32,
    padding: u32,
    dims: Seq<(u32, u32)>,
    c: int,
    cap: u32,
    size: u32,
    rs: Seq<(u32, u32, u32, u32)>,
)
    requires
        spec_search(border, padding, dims, c, cap) == Some((size, rs)),
    ensures
        c >= 1,
        size >= c,
        size <= cap,
        accepts_at(border, padding, dims, size),
        rs == spec_place_seq((size, size, border, padding), dims).unwrap(),
        forall|c2: u32| c <= c2 < size ==> !accepts_at(border, padding, dims, c2) || !is_candidate(
            c,
            c2 as int,
            cap,
        ),
    decreases cap - c,
{
    let cu = c as u32;
    if accepts_at(border, padding, dims, cu) {
    } else if c == cap {
    } else if 2 * c <= cap {
        lemma_search_minimal(border, padding, dims, 2 * c, cap, size, rs);
        assert forall|c2: u32| c <= c2 < size implies !accepts_at(border, padding, dims, c2)
            || !is_candidate(c, c2 as int, cap) by {
            if is_candidate(c, c2 as int, cap) && c2 != c {
                lemma_candidate_ge(2 * c, c2 as int, cap);
            }
        }
    } else {
        lemma_search_minimal(border, padding, dims, cap as int, cap, size, rs);
        assert forall|c2: u32| c <= c2 < size implies !accepts_at(border, padding, dims, c2)
            || !is_candidate(c, c2 as int, cap) by {
            if is_candidate(c, c2 as int, cap) && c2 != c {
                lemma_candidate_ge(cap as int, c2 as int, cap);
            }
        }
    }
}

/// The first candidate is at least the doubling base.
proof fn lemma_spec_start_ge(c: int, bound: int)
    requires
        c >= 1,
    ensures
        spec_start(c, bound) >= c,
    decreases bound - c,
{
    if c < bound && 2 * c < bound {
        lemma_spec_start_ge(2 * c, bound);
    }
}

/// A candidate reachable from `c` is at least `c`.
proof fn lemma_candidate_ge(c: int, c2: int, cap: u32)
    requires
        is_candidate(c, c2, cap),
    ensures
        c2 >= c,
    decreases cap - c,
{
    if c < 1 || c > cap {
    } else if c2 == c {
    } else if c == cap {
    } else if 2 * c <= cap {
        lemma_candidate_ge(2 * c, c2, cap);
    } else {
        lemma_candidate_ge(cap as int, c2, cap);
    }
}

/// `c2` is one of the candidate sizes tried when the search starts at `c`:
/// reachable by doubling, capped at `cap`.
pub open spec fn is_candidate(c: int, c2: int, cap: u32) -> bool
    decreases cap - c,
{
    if c < 1 || c > cap {
        false
    } else if c2 == c {
        true
    } else if c == cap {
        false
    } else if 2 * c <= cap {
        is_candidate(2 * c, c2, cap)
    } else {
        is_candidate(cap as int, c2, cap)
    }
}

/// Tries to pack all images at the given square size, in order: the recorded
/// rectangles, or `None` as soon as one image does not fit.
pub fn try_pack_at(size: u32, border: u32, padding: u32, images: &Vec<ImageFile>) -> (r: Option<
    Vec<(u32, u32, u32, u32)>,
>)
    requires
        forall|k: int| 0 <= k < images@.len() ==> (#[trigger] images@[k]).image.wf(),
        forall|k: int|
            0 <= k < images@.len() ==> 1 <= (#[trigger] images@[k]).image.width && 1 <= images@[
                k].image.height && size + images@[k].image.width + padding <= u32::MAX && size
                + images@[k].image.height + padding <= u32::MAX && images@[k].image.width
                * images@[k].image.height <= u32::MAX,
        size >= 1,
        size + border <= u32::MAX,
    ensures
        match spec_place_seq((size, size, border, padding), image_dims(images@)) {
            Some(rs) => r is Some && r.unwrap()@ == rs,
            None => r is None,
        },
{
    let ghost limits = (size, size, border, padding);
    let ghost dims = image_dims(images@);
    let mut p = packer_new(size, size, border, padding);
    proof {
        assert(packer_placed(p) =~= dims.take(0));
        assert(spec_place_seq(limits, dims.take(0)) == Some(Seq::<(u32, u32, u32, u32)>::empty()));
    }
    let mut out: Vec<(u32, u32, u32, u32)> = Vec::new();
    let n = images.len();
    let mut k: usize = 0;
    while k < n
        invariant
            k <= n,
            n == images@.len(),
            dims == image_dims(images@),
            limits == (size, size, border, padding),
            forall|j: int| 0 <= j < n ==> (#[trigger] images@[j]).image.wf(),
            forall|j: int|
                0 <= j < n ==> 1 <= (#[trigger] images@[j]).image.width && 1 <= images@[
                    j].image.height && size + images@[j].image.width + padding <= u32::MAX && size
                    + images@[j].image.height + padding <= u32::MAX && images@[j].image.width
                    * images@[j].image.height <= u32::MAX,
            size >= 1,
            size + border <= u32::MAX,
            packer_limits(p) == limits,
            packer_placed(p) == dims.take(k as int),
            out@.len() == k,
            spec_place_seq(limits, dims.take(k as int)) == Some(out@),
        decreases n - k,
    {
        let ghost placed0 = packer_placed(p);
        let ok = packer_insert(&mut p, &images[k].id, &images[k].image);
        proof {
            assert(dims[k as int] == (images@[k as int].image.width, images@[
                k as int].image.height));
            assert(dims.take(k + 1).drop_last() =~= dims.take(k as int));
            assert(dims.take(k + 1).last() == dims[k as int]);
        }
        if !ok {
            proof {
                assert(spec_place_seq(limits, dims.take(k + 1)) is None);
                lemma_place_seq_extend_none(limits, dims, k + 1);
            }
            return None;
        }
        let rect = match packer_get_frame(&p, &images[k].id) {
            Some(t) => t,
            None => {
                proof {
                    let r0 = skyline_place(limits, placed0, images@[k as int].image.width, images@[
                        k as int].image.height);
                    assert(packer_frames(p).dom().contains(images@[k as int].id@));
                    assert(false);
                }
                return None;
            },
        };
        out.push(rect);
        proof {
            assert(packer_placed(p) =~= dims.take(k + 1));
            assert(spec_place_seq(limits, dims.take(k + 1)) == Some(out@));
        }
        k = k + 1;
    }
    proof {
        assert(dims.take(n as int) =~= dims);
    }
    Some(out)
}

/// Checks the layout the packer produced: every rectangle has its image's
/// dimensions and keeps the border clear, and no two rectangles overlap.
pub fn check_layout(
    rs: &Vec<(u32, u32, u32, u32)>,
    images: &Vec<ImageFile>,
    size: u32,
    border: u32,
) -> (b: bool)
    ensures
        b == valid_layout(rs@, image_dims(images@), size, border),
{
    let n = rs.len();
    if n != images.len() {
        return false;
    }
    let mut k: usize = 0;
    while k < n
        invariant
            k <= n,
            n == rs@.len(),
            n == images@.len(),
            forall|j: int|
                0 <= j < k ==> (#[trigger] rs@[j]).2 == image_dims(images@)[j].0 && rs@[j].3
                    == image_dims(images@)[j].1,
            forall|j: int|
                0 <= j < k ==> border <= (#[trigger] rs@[j]).0 && border <= rs@[j].1 && rs@[j].0
                    + rs@[j].2 + border <= size && rs@[j].1 + rs@[j].3 + border <= size,
        decreases n - k,
    {
        let (x, y, w, h) = rs[k];
        if w != images[k].image.width || h != images[k].image.height {
            return false;
        }
        if !(border <= x && border <= y && x as u64 + w as u64 + border as u64 <= size as u64
            && y as u64 + h as u64 + border as u64 <= size as u64) {
            return false;
        }
        k = k + 1;
    }
    let mut a: usize = 0;
    while a < n
        invariant
            a <= n,
            n == rs@.len(),
            n == images@.len(),
            forall|j: int|
                0 <= j < n ==> (#[trigger] rs@[j]).2 == image_dims(images@)[j].0 && rs@[j].3
                    == image_dims(images@)[j].1,
            forall|j: int|
                0 <= j < n ==> border <= (#[trigger] rs@[j]).0 && border <= rs@[j].1 && rs@[j].0
                    + rs@[j].2 + border <= size && rs@[j].1 + rs@[j].3 + border <= size,
            forall|i: int, j: int|
                0 <= i < a && 0 <= j < n && i != j ==> rect_of(#[trigger] rs@[i]).disjoint_from(
                    rect_of(#[trigger] rs@[j])),
        decreases n - a,
    {
        let mut b: usize = 0;
        while b < n
            invariant
                a < n,
                b <= n,
                n == rs@.len(),
                forall|j: int|
                    0 <= j < b && j != a ==> rect_of(#[trigger] rs@[a as int]).disjoint_from(
                        rect_of(#[trigger] rs@[j])),
            decreases n - b,
        {
            if b != a {
                let (x1, y1, w1, h1) = rs[a];
                let (x2, y2, w2, h2) = rs[b];
                let disjoint = x1 as u64 + w1 as u64 <= x2 as u64 || x2 as u64 + w2 as u64
                    <= x1 as u64 || y1 as u64 + h1 as u64 <= y2 as u64 || y2 as u64 + h2 as u64
                    <= y1 as u64;
                if !disjoint {
                    return false;
                }
            }
            b = b + 1;
        }
        proof {
            assert forall|i: int, j: int|
                0 <= i < a + 1 && 0 <= j < n && i != j implies rect_of(
                #[trigger] rs@[i],
            ).disjoint_from(rect_of(#[trigger] rs@[j])) by {
                if i == a {
                } else if j == a {
                    assert(rect_of(rs@[a as int]).disjoint_from(rect_of(rs@[i])));
                }
            }
        }
        a = a + 1;
    }
    true
}

/// Where a new frame stands in the key order: before the first frame whose
/// key is not smaller.
pub open spec fn spec_insert_frame(s: Seq<FrameModel>, f: FrameModel) -> Seq<FrameModel>
    decreases s.len(),
{
    if s.len() == 0 {
        seq![f]
    } else if key_le(f.key, s[0].key) {
        seq![f] + s
    } else {
        seq![s[0]] + spec_insert_frame(s.skip(1), f)
    }
}

/// The frames sorted by key, by repeated insertion.
pub open spec fn spec_sort_frames(fs: Seq<FrameModel>) -> Seq<FrameModel>
    decreases fs.len(),
{
    if fs.len() == 0 {
        Seq::<FrameModel>::empty()
    } else {
        spec_insert_frame(spec_sort_frames(fs.drop_last()), fs.last())
    }
}

/// Inserting a frame with a fresh key keeps the sequence strictly sorted, and
/// adds exactly that frame.
proof fn lemma_insert_frame(s: Seq<FrameModel>, f: FrameModel)
    requires
        frames_strictly_sorted(s),
        forall|j: int| 0 <= j < s.len() ==> (#[trigger] s[j]).key != f.key,
    ensures
        spec_insert_frame(s, f).len() == s.len() + 1,
        frames_strictly_sorted(spec_insert_frame(s, f)),
        forall|j: int|
            0 <= j < spec_insert_frame(s, f).len() ==> (#[trigger] spec_insert_frame(s, f)[j]) == f
                || s.contains(spec_insert_frame(s, f)[j]),
        spec_insert_frame(s, f).contains(f),
        forall|j: int| 0 <= j < s.len() ==> spec_insert_frame(s, f).contains(#[trigger] s[j]),
    decreases s.len(),
{
    let r = spec_insert_frame(s, f);
    if s.len() == 0 {
        assert(r =~= seq![f]);
        assert(r[0] == f);
    } else if key_le(f.key, s[0].key) {
        assert(r == seq![f] + s);
        assert forall|i: int, j: int| 0 <= i < j < r.len() implies key_lt(
            (#[trigger] r[i]).key,
            (#[trigger] r[j]).key,
        ) by {
            if i == 0 {
                if j == 1 {
                    assert(r[j] == s[0]);
                } else {
                    crate::text::lemma_key_le_transitive(f.key, s[0].key, s[j - 1].key);
                    if f.key == s[j - 1].key {
                        assert(false);
                    }
                }
            } else {
                assert(r[i] == s[i - 1] && r[j] == s[j - 1]);
            }
        }
        assert forall|j: int| 0 <= j < r.len() implies (#[trigger] r[j]) == f || s.contains(
            r[j],
        ) by {
            if j > 0 {
                assert(r[j] == s[j - 1]);
            }
        }
        assert(r[0] == f);
        assert forall|j: int| 0 <= j < s.len() implies r.contains(#[trigger] s[j]) by {
            assert(r[j + 1] == s[j]);
        }
    } else {
        crate::text::lemma_key_le_total(f.key, s[0].key);
        assert(key_le(s[0].key, f.key));
        assert(frames_strictly_sorted(s.skip(1))) by {
            assert(forall|i: int|
                0 <= i < s.skip(1).len() ==> #[trigger] s.skip(1)[i] == s[i + 1]);
        }
        assert(forall|j: int|
            0 <= j < s.skip(1).len() ==> (#[trigger] s.skip(1)[j]).key != f.key) by {
            assert(forall|i: int|
                0 <= i < s.skip(1).len() ==> #[trigger] s.skip(1)[i] == s[i + 1]);
        }
        lemma_insert_frame(s.skip(1), f);
        let t = spec_insert_frame(s.skip(1), f);
        assert(r == seq![s[0]] + t);
        assert forall|i: int, j: int| 0 <= i < j < r.len() implies key_lt(
            (#[trigger] r[i]).key,
            (#[trigger] r[j]).key,
        ) by {
            if i == 0 {
                assert(r[j] == t[j - 1]);
                if t[j - 1] == f {
                    assert(key_le(s[0].key, f.key) && s[0].key != f.key);
                } else {
                    assert(s.contains(t[j - 1]));
                    let w = choose|w: int| 0 <= w < s.len() && s[w] == t[j - 1];
                    if w == 0 {
                        assert(key_lt(s[0].key, s[0].key));
                        assert(false);
                    } else {
                        assert(key_lt(s[0].key, s[w].key));
                    }
                }
            } else {
                assert(r[i] == t[i - 1] && r[j] == t[j - 1]);
            }
        }
        assert forall|j: int| 0 <= j < r.len() implies (#[trigger] r[j]) == f || s.contains(
            r[j],
        ) by {
            if j == 0 {
                assert(s[0] == r[0]);
                assert(s.contains(s[0]));
            } else {
                assert(r[j] == t[j - 1]);
                if t[j - 1] != f {
                    assert(s.skip(1).contains(t[j - 1]));
                    let w = choose|w: int| 0 <= w < s.skip(1).len() && s.skip(1)[w] == t[j - 1];
                    assert(s[w + 1] == t[j - 1]);
                }
            }
        }
        assert(t.contains(f));
        let wf_idx = choose|w: int| 0 <= w < t.len() && t[w] == f;
        assert(r[wf_idx + 1] == f);
        assert(r.contains(f));
        assert forall|j: int| 0 <= j < s.len() implies r.contains(#[trigger] s[j]) by {
            if j == 0 {
                assert(r[0] == s[0]);
            } else {
                assert(s.skip(1)[j - 1] == s[j]);
                assert(t.contains(s.skip(1)[j - 1]));
                let w = choose|w: int| 0 <= w < t.len() && t[w] == s.skip(1)[j - 1];
                assert(r[w + 1] == s[j]);
            }
        }
    }
}

/// Inserts a frame into a key-sorted vector, keeping it sorted.
fn find_insert_index(v: &Vec<AtlasFrame>, f: &AtlasFrame) -> (idx: usize)
    ensures
        idx <= v@.len(),
        forall|j: int| 0 <= j < idx ==> !key_le(f.key@, (#[trigger] v@[j]).key@),
        idx < v@.len() ==> key_le(f.key@, v@[idx as int].key@),
{
    let n = v.len();
    let mut idx: usize = 0;
    while idx < n
        invariant
            idx <= n,
            n == v@.len(),
            forall|j: int| 0 <= j < idx ==> !key_le(f.key@, (#[trigger] v@[j]).key@),
        decreases n - idx,
    {
        if str_le(f.key.as_str(), v[idx].key.as_str()) {
            return idx;
        }
        idx = idx + 1;
    }
    idx
}

fn insert_frame_sorted(v: &mut Vec<AtlasFrame>, f: AtlasFrame)
    requires
        forall|j: int| 0 <= j < old(v)@.len() ==> (#[trigger] old(v)@[j]).key@ != f.key@,
    ensures
        frames_model(final(v)@) == spec_insert_frame(frames_model(old(v)@), f.model()),
{
    let idx = find_insert_index(v, &f);
    proof {
        assert(forall|j: int|
            0 <= j < v@.len() ==> (#[trigger] frames_model(v@)[j]) == v@[j].model());
        lemma_insert_at_index(frames_model(v@), f.model(), idx as int);
    }
    v.insert(idx, f);
    proof {
        assert(frames_model(v@) =~= frames_model(old(v)@).take(idx as int) + seq![f.model()]
            + frames_model(old(v)@).skip(idx as int));
    }
}

/// Inserting before the first not-smaller key is what `spec_insert_frame`
/// does.
proof fn lemma_insert_at_index(s: Seq<FrameModel>, f: FrameModel, idx: int)
    requires
        0 <= idx <= s.len(),
        forall|j: int| 0 <= j < idx ==> !key_le(f.key, (#[trigger] s[j]).key),
        idx < s.len() ==> key_le(f.key, s[idx].key),
    ensures
        spec_insert_frame(s, f) == s.take(idx) + seq![f] + s.skip(idx),
    decreases idx,
{
    if idx == 0 {
        if s.len() == 0 {
            assert(spec_insert_frame(s, f) =~= s.take(0) + seq![f] + s.skip(0));
        } else {
            assert(spec_insert_frame(s, f) == seq![f] + s);
            assert(seq![f] + s =~= s.take(0) + seq![f] + s.skip(0));
        }
    } else {
        assert(!key_le(f.key, s[0].key));
        assert(forall|j: int|
            0 <= j < idx - 1 ==> !key_le(f.key, (#[trigger] s.skip(1)[j]).key)) by {
            assert(forall|j: int|
                0 <= j < s.skip(1).len() ==> #[trigger] s.skip(1)[j] == s[j + 1]);
        }
        assert(idx - 1 < s.skip(1).len() ==> key_le(f.key, s.skip(1)[idx - 1].key)) by {
            if idx - 1 < s.skip(1).len() {
                assert(s.skip(1)[idx - 1] == s[idx]);
            }
        }
        lemma_insert_at_index(s.skip(1), f, idx - 1);
        assert(spec_insert_frame(s, f) == seq![s[0]] + (s.skip(1).take(idx - 1) + seq![f]
            + s.skip(1).skip(idx - 1)));
        assert(s.skip(1).take(idx - 1) =~= s.take(idx).skip(1));
        assert(s.skip(1).skip(idx - 1) =~= s.skip(idx));
        assert(seq![s[0]] + (s.take(idx).skip(1) + seq![f] + s.skip(idx)) =~= s.take(idx)
            + seq![f] + s.skip(idx));
    }
}

/// The canvas holds, inside this frame's rectangle, exactly the pixels of
/// the input image the frame's key names.
pub open spec fn frame_matches_source(
    canvas: Rgba8Image,
    fm: FrameModel,
    images: Seq<ImageFile>,
) -> bool {
    exists|k: int|
        #![trigger images[k]]
        {
            &&& 0 <= k < images.len()
            &&& images[k].id@ == fm.key
            &&& images[k].image.width == fm.frame.w
            &&& images[k].image.height == fm.frame.h
            &&& forall|dx: int, dy: int|
                0 <= dx < fm.frame.w && 0 <= dy < fm.frame.h ==> canvas.pixel_at(
                    fm.frame.x + dx,
                    fm.frame.y + dy,
                ) == images[k].image.pixel_at(dx, dy)
        }
}

/// Some frame of the asset covers the point.
pub open spec fn frame_covers(fs: Seq<FrameModel>, x: int, y: int) -> bool {
    exists|i: int|
        0 <= i < fs.len() && (#[trigger] fs[i]).frame.x <= x < fs[i].frame.x + fs[i].frame.w
            && fs[i].frame.y <= y < fs[i].frame.y + fs[i].frame.h
}

/// The point lies inside the frame rectangle.
pub open spec fn point_in_rect(t: (u32, u32, u32, u32), x: int, y: int) -> bool {
    t.0 <= x < t.0 + t.2 && t.1 <= y < t.1 + t.3
}

/// Some frame rectangle covers the point.
pub open spec fn covered(rs: Seq<(u32, u32, u32, u32)>, x: int, y: int) -> bool {
    exists|k: int| 0 <= k < rs.len() && point_in_rect(#[trigger] rs[k], x, y)
}

/// Composites the packed images onto a transparent canvas: each frame
/// rectangle holds its image's pixels, and everything outside the frames is
/// fully transparent.
pub fn composite(
    size: u32,
    border: u32,
    images: &Vec<ImageFile>,
    rs: &Vec<(u32, u32, u32, u32)>,
) -> (r: Rgba8Image)
    requires
        4 * (size as int) * (size as int) <= usize::MAX,
        forall|k: int| 0 <= k < images@.len() ==> (#[trigger] images@[k]).image.wf(),
        valid_layout(rs@, image_dims(images@), size, border),
    ensures
        r.wf(),
        r.width == size,
        r.height == size,
        forall|k: int, dx: int, dy: int|
            #![trigger images@[k].image.pixel_at(dx, dy)]
            0 <= k < images@.len() && 0 <= dx < images@[k].image.width && 0 <= dy < images@[
                k].image.height ==> r.pixel_at(rs@[k].0 + dx, rs@[k].1 + dy) == images@[
                k].image.pixel_at(dx, dy),
        forall|x: int, y: int|
            0 <= x < size && 0 <= y < size && !covered(rs@, x, y) ==> r.pixel_at(x, y) == (
            0u8, 0u8, 0u8, 0u8),
{
    let mut canvas = Rgba8Image::new(size, size);
    proof {
        assert forall|x: int, y: int| 0 <= x < size && 0 <= y < size implies canvas.pixel_at(
            x,
            y,
        ) == (0u8, 0u8, 0u8, 0u8) by {
            crate::imagebuf::lemma_pixel_off_bounds(canvas, x, y);
        }
    }
    let n = images.len();
    let mut k: usize = 0;
    while k < n
        invariant
            k <= n,
            n == images@.len(),
            n == rs@.len(),
            forall|j: int| 0 <= j < n ==> (#[trigger] images@[j]).image.wf(),
            valid_layout(rs@, image_dims(images@), size, border),
            canvas.wf(),
            canvas.width == size,
            canvas.height == size,
            forall|k2: int, dx: int, dy: int|
                #![trigger images@[k2].image.pixel_at(dx, dy)]
                0 <= k2 < k && 0 <= dx < images@[k2].image.width && 0 <= dy < images@[
                    k2].image.height ==> canvas.pixel_at(rs@[k2].0 + dx, rs@[k2].1 + dy)
                    == images@[k2].image.pixel_at(dx, dy),
            forall|x: int, y: int|
                0 <= x < size && 0 <= y < size && !covered(rs@.take(k as int), x, y)
                    ==> canvas.pixel_at(x, y) == (0u8, 0u8, 0u8, 0u8),
        decreases n - k,
    {
        let (x, y, _w, _h) = rs[k];
        proof {
            assert(rs@[k as int].0 + rs@[k as int].2 + border <= size);
            assert(rs@[k as int].1 + rs@[k as int].3 + border <= size);
            assert(rs@[k as int].2 == image_dims(images@)[k as int].0);
            assert(rs@[k as int].3 == image_dims(images@)[k as int].1);
            assert(image_dims(images@)[k as int] == (images@[k as int].image.width, images@[
                k as int].image.height));
        }
        let ghost before = canvas;
        crate::imagebuf::blit(&mut canvas, &images[k].image, x, y);
        proof {
            let rk = rs@[k as int];
            let w = images@[k as int].image.width;
            let h = images@[k as int].image.height;
            // Earlier frames lie outside this frame's rectangle, so their
            // pixels are untouched.
            assert forall|k2: int, dx: int, dy: int|
                0 <= k2 < k + 1 && 0 <= dx < images@[k2].image.width && 0 <= dy < images@[
                    k2].image.height implies canvas.pixel_at(rs@[k2].0 + dx, rs@[k2].1 + dy)
                == #[trigger] images@[k2].image.pixel_at(dx, dy) by {
                if k2 < k {
                    assert(rect_of(rs@[k2]).disjoint_from(rect_of(rk)));
                    assert(rs@[k2].2 == image_dims(images@)[k2].0);
                    assert(rs@[k2].3 == image_dims(images@)[k2].1);
                    assert(image_dims(images@)[k2] == (images@[k2].image.width, images@[
                        k2].image.height));
                    assert(rs@[k2].0 + rs@[k2].2 + border <= size);
                    assert(rs@[k2].1 + rs@[k2].3 + border <= size);
                    assert(before.pixel_at(rs@[k2].0 + dx, rs@[k2].1 + dy) == images@[
                        k2].image.pixel_at(dx, dy));
                }
            }
            // A point no frame among the first k+1 covers is outside this
            // frame's rectangle and was transparent before.
            assert forall|px: int, py: int|
                0 <= px < size && 0 <= py < size && !covered(rs@.take(k + 1), px, py) implies
                canvas.pixel_at(px, py) == (0u8, 0u8, 0u8, 0u8) by {
                assert(rs@.take(k + 1)[k as int] == rk);
                assert(!point_in_rect(rk, px, py));
                assert forall|k2: int| 0 <= k2 < k implies !point_in_rect(
                    #[trigger] rs@.take(k as int)[k2],
                    px,
                    py,
                ) by {
                    assert(rs@.take(k + 1)[k2] == rs@.take(k as int)[k2]);
                }
                assert(!covered(rs@.take(k as int), px, py));
                assert(before.pixel_at(px, py) == (0u8, 0u8, 0u8, 0u8));
            }
        }
        k = k + 1;
    }
    proof {
        assert(rs@.take(n as int) =~= rs@);
    }
    canvas
}

/// Two input images share a key.
pub open spec fn has_duplicate_ids(ids: Seq<Seq<char>>) -> bool {
    exists|i: int, j: int| 0 <= i < j < ids.len() && ids[i] == ids[j]
}

/// The image can never be packed: a degenerate dimension, or, together with
/// the border on both sides, larger than the configured maximum canvas edge
/// in some dimension.
pub open spec fn unpackable(d: (u32, u32), cap: u32, border: u32) -> bool {
    d.0 == 0 || d.1 == 0 || d.0 + 2 * border > cap || d.1 + 2 * border > cap
}

/// Some image can never be packed.
pub open spec fn some_unpackable(dims: Seq<(u32, u32)>, cap: u32, border: u32) -> bool {
    exists|k: int| 0 <= k < dims.len() && unpackable(#[trigger] dims[k], cap, border)
}

/// `k` is the first image that can never be packed.
pub open spec fn first_unpackable(dims: Seq<(u32, u32)>, cap: u32, border: u32, k: int) -> bool {
    &&& 0 <= k < dims.len()
    &&& unpackable(dims[k], cap, border)
    &&& forall|j: int| 0 <= j < k ==> !unpackable(#[trigger] dims[j], cap, border)
}

/// The configured maximum canvas edge: the smaller of the two limits, so a
/// chosen square canvas never exceeds either configured dimension.
pub open spec fn cap_of(config: SpritesheetBuildConfig) -> u32 {
    if config.max_width <= config.max_height {
        config.max_width
    } else {
        config.max_height
    }
}

/// The metadata this builder writes.
pub open spec fn spec_meta_model() -> MetaModel {
    MetaModel { format_version: 1, app: "rpack"@, app_version: "0.1.0"@ }
}

/// The frames of a successful build, in input order.
pub open spec fn built_frames(ids: Seq<Seq<char>>, rs: Seq<(u32, u32, u32, u32)>) -> Seq<
    FrameModel,
> {
    Seq::new(ids.len(), |k: int| FrameModel { key: ids[k], frame: rect_of(rs[k]) })
}

/// What a successful build contains, as a function of the configuration and
/// the inputs alone: the first accepted candidate canvas and the frames it
/// yields, sorted by key.
pub open spec fn build_ok_model(
    border: u32,
    padding: u32,
    cap: u32,
    skip_metadata: bool,
    dims: Seq<(u32, u32)>,
    ids: Seq<Seq<char>>,
    filename: Seq<char>,
) -> Option<AtlasModel> {
    match spec_search(border, padding, dims, spec_start(32, spec_lower_bound(dims)), cap) {
        None => None,
        Some((size, rs)) => Some(
            AtlasModel {
                width: size,
                height: size,
                filename,
                frames: spec_sort_frames(built_frames(ids, rs)),
                metadata: if skip_metadata {
                    None
                } else {
                    Some(spec_meta_model())
                },
            },
        ),
    }
}

/// Building the same image set twice with an identical configuration yields
/// an identical atlas model: the same frame ordering and the same chosen
/// canvas size (determinism).
pub proof fn lemma_build_deterministic(
    c1: SpritesheetBuildConfig,
    c2: SpritesheetBuildConfig,
    dims1: Seq<(u32, u32)>,
    dims2: Seq<(u32, u32)>,
    ids1: Seq<Seq<char>>,
    ids2: Seq<Seq<char>>,
    filename1: Seq<char>,
    filename2: Seq<char>,
)
    requires
        c1 == c2,
        dims1 == dims2,
        ids1 == ids2,
        filename1 == filename2,
    ensures
        build_ok_model(
            c1.border_padding,
            c1.texture_padding,
            cap_of(c1),
            c1.skip_metadata_serialization,
            dims1,
            ids1,
            filename1,
        ) == build_ok_model(
            c2.border_padding,
            c2.texture_padding,
            cap_of(c2),
            c2.skip_metadata_serialization,
            dims2,
            ids2,
            filename2,
        ),
{
}


/// Two canvases that carry the same frames from the same distinctly-keyed
/// sources, and are transparent outside the frames, agree on every pixel:
/// with `lemma_build_deterministic`, two builds of identical inputs yield
/// byte-identical canvases, since `build` ensures exactly these clauses of
/// both results.
pub proof fn lemma_canvas_deterministic(
    c1: Rgba8Image,
    c2: Rgba8Image,
    fs: Seq<FrameModel>,
    images: Seq<ImageFile>,
)
    requires
        c1.width == c2.width,
        c1.height == c2.height,
        !has_duplicate_ids(image_ids(images)),
        forall|i: int| 0 <= i < fs.len() ==> frame_matches_source(c1, #[trigger] fs[i], images),
        forall|i: int| 0 <= i < fs.len() ==> frame_matches_source(c2, #[trigger] fs[i], images),
        forall|x: int, y: int|
            0 <= x < c1.width && 0 <= y < c1.height && !frame_covers(fs, x, y) ==> c1.pixel_at(
                x,
                y,
            ) == (0u8, 0u8, 0u8, 0u8),
        forall|x: int, y: int|
            0 <= x < c2.width && 0 <= y < c2.height && !frame_covers(fs, x, y) ==> c2.pixel_at(
                x,
                y,
            ) == (0u8, 0u8, 0u8, 0u8),
    ensures
        forall|x: int, y: int|
            0 <= x < c1.width && 0 <= y < c1.height ==> c1.pixel_at(x, y) == c2.pixel_at(x, y),
{
    assert forall|x: int, y: int|
        0 <= x < c1.width && 0 <= y < c1.height implies c1.pixel_at(x, y) == c2.pixel_at(
        x,
        y,
    ) by {
        if frame_covers(fs, x, y) {
            let i = choose|i: int|
                0 <= i < fs.len() && (#[trigger] fs[i]).frame.x <= x < fs[i].frame.x
                    + fs[i].frame.w && fs[i].frame.y <= y < fs[i].frame.y + fs[i].frame.h;
            let fm = fs[i];
            assert(frame_matches_source(c1, fm, images));
            assert(frame_matches_source(c2, fm, images));
            let k1 = choose|k: int|
                #![trigger images[k]]
                {
                    &&& 0 <= k < images.len()
                    &&& images[k].id@ == fm.key
                    &&& images[k].image.width == fm.frame.w
                    &&& images[k].image.height == fm.frame.h
                    &&& forall|dx: int, dy: int|
                        0 <= dx < fm.frame.w && 0 <= dy < fm.frame.h ==> c1.pixel_at(
                            fm.frame.x + dx,
                            fm.frame.y + dy,
                        ) == images[k].image.pixel_at(dx, dy)
                };
            let k2 = choose|k: int|
                #![trigger images[k]]
                {
                    &&& 0 <= k < images.len()
                    &&& images[k].id@ == fm.key
                    &&& images[k].image.width == fm.frame.w
                    &&& images[k].image.height == fm.frame.h
                    &&& forall|dx: int, dy: int|
                        0 <= dx < fm.frame.w && 0 <= dy < fm.frame.h ==> c2.pixel_at(
                            fm.frame.x + dx,
                            fm.frame.y + dy,
                        ) == images[k].image.pixel_at(dx, dy)
                };
            assert(image_ids(images)[k1] == images[k1].id@);
            assert(image_ids(images)[k2] == images[k2].id@);
            if k1 != k2 {
                if k1 < k2 {
                    assert(image_ids(images)[k1] == image_ids(images)[k2]);
                } else {
                    assert(image_ids(images)[k2] == image_ids(images)[k1]);
                }
                assert(has_duplicate_ids(image_ids(images)));
                assert(false);
            }
            let dx = x - fm.frame.x;
            let dy = y - fm.frame.y;
            assert(c1.pixel_at(fm.frame.x + dx, fm.frame.y + dy) == images[k1].image.pixel_at(
                dx,
                dy,
            ));
            assert(c2.pixel_at(fm.frame.x + dx, fm.frame.y + dy) == images[k2].image.pixel_at(
                dx,
                dy,
            ));
        }
    }
}

impl Spritesheet {
    /// Recomputes the canonical serialized form after a field of the asset
    /// was changed.
    pub fn rebuild_json(&mut self)
        ensures
            final(self).image_data == old(self).image_data,
            final(self).atlas_asset == old(self).atlas_asset,
            final(self).atlas_asset_json@ == crate::wire::emit_atlas(old(self).atlas_asset.model()),
    {
        self.atlas_asset_json = crate::wire::atlas_to_json(&self.atlas_asset);
    }

    /// Builds a spritesheet: rejects duplicate keys and images that, with the
    /// border on both sides, exceed the configured maximum canvas edge (the
    /// smaller of the two limits), searches the candidate canvas sizes for
    /// the smallest square the packer accepts, validates the layout,
    /// composites the canvas, and serializes the asset. The resulting frames
    /// are sorted by key, keep the border clear, no two overlap, and the
    /// canvas is transparent outside them.
    pub fn build(config: &SpritesheetBuildConfig, images: &Vec<ImageFile>, filename: &str) -> (r:
        Result<Spritesheet, SpritesheetError>)
        requires
            forall|k: int| 0 <= k < images@.len() ==> (#[trigger] images@[k]).image.wf(),
            2 * (cap_of(*config) as int) + config.texture_padding <= u32::MAX,
            cap_of(*config) + config.border_padding <= u32::MAX,
            (cap_of(*config) as int) * (cap_of(*config) as int) <= u32::MAX,
            4 * (cap_of(*config) as int) * (cap_of(*config) as int) <= usize::MAX,
        ensures
            match r {
                Ok(sheet) => {
                    &&& !has_duplicate_ids(image_ids(images@))
                    &&& !some_unpackable(
                        image_dims(images@),
                        cap_of(*config),
                        config.border_padding,
                    )
                    &&& build_ok_model(
                        config.border_padding,
                        config.texture_padding,
                        cap_of(*config),
                        config.skip_metadata_serialization,
                        image_dims(images@),
                        image_ids(images@),
                        filename@,
                    ) == Some(sheet.atlas_asset.model())
                    &&& sheet.atlas_asset.wf()
                    &&& sheet.atlas_asset_json@ == crate::wire::emit_atlas(
                        sheet.atlas_asset.model(),
                    )
                    &&& sheet.image_data.wf()
                    &&& sheet.image_data.width == sheet.atlas_asset.model().width
                    &&& sheet.image_data.height == sheet.atlas_asset.model().height
                    &&& forall|i: int|
                        0 <= i < sheet.atlas_asset.frames@.len() ==> frame_matches_source(
                            sheet.image_data,
                            (#[trigger] sheet.atlas_asset.frames@[i]).model(),
                            images@,
                        )
                    &&& forall|x: int, y: int|
                        0 <= x < sheet.image_data.width && 0 <= y < sheet.image_data.height
                            && !frame_covers(frames_model(sheet.atlas_asset.frames@), x, y)
                            ==> sheet.image_data.pixel_at(x, y) == (0u8, 0u8, 0u8, 0u8)
                },
                Err(e) => match e {
                    SpritesheetError::DuplicateKey(k) => has_duplicate_ids(image_ids(images@))
                        && (exists|i: int, j: int|
                        0 <= i < j < images@.len() && image_ids(images@)[i] == image_ids(
                            images@,
                        )[j] && k@ == image_ids(images@)[j]),
                    SpritesheetError::CannotPackImage(k) => !has_duplicate_ids(image_ids(images@))
                        && (exists|j: int|
                        first_unpackable(
                            image_dims(images@),
                            cap_of(*config),
                            config.border_padding,
                            j,
                        ) && k@ == image_ids(images@)[j]),
                    SpritesheetError::FailedToPackImage => !has_duplicate_ids(image_ids(images@))
                        && !some_unpackable(
                        image_dims(images@),
                        cap_of(*config),
                        config.border_padding,
                    ) && build_ok_model(
                        config.border_padding,
                        config.texture_padding,
                        cap_of(*config),
                        config.skip_metadata_serialization,
                        image_dims(images@),
                        image_ids(images@),
                        filename@,
                    ) is None,
                    _ => false,
                },
            },
    {
        let ghost dims = image_dims(images@);
        let ghost ids = image_ids(images@);
        let cap = if config.max_width <= config.max_height {
            config.max_width
        } else {
            config.max_height
        };
        let n = images.len();

        // Duplicate keys are a build-time error.
        let mut a: usize = 0;
        while a < n
            invariant
                a <= n,
                n == images@.len(),
                ids == image_ids(images@),
                forall|i: int, j: int| 0 <= i < j < a ==> ids[i] != ids[j],
            decreases n - a,
        {
            let mut b: usize = 0;
            while b < a
                invariant
                    b <= a,
                    a < n,
                    n == images@.len(),
                    ids == image_ids(images@),
                    forall|i: int| 0 <= i < b ==> ids[i] != ids[a as int],
                decreases a - b,
            {
                let le1 = str_le(images[b].id.as_str(), images[a].id.as_str());
                let le2 = str_le(images[a].id.as_str(), images[b].id.as_str());
                if le1 && le2 {
                    proof {
                        crate::text::lemma_key_le_antisymmetric(images@[b as int].id@, images@[
                            a as int].id@);
                        assert(ids[b as int] == ids[a as int]);
                    }
                    proof {
                        assert(ids[a as int] == images@[a as int].id@);
                        assert(has_duplicate_ids(ids));
                    }
                    return Err(SpritesheetError::DuplicateKey(images[a].id.clone()));
                }
                proof {
                    if ids[b as int] == ids[a as int] {
                        crate::text::lemma_key_le_reflexive(ids[b as int]);
                        assert(false);
                    }
                }
                b = b + 1;
            }
            a = a + 1;
        }

        // An image that, with its border, exceeds the maximum canvas edge can
        // never be packed.
        let border = config.border_padding;
        let padding = config.texture_padding;
        let mut k: usize = 0;
        while k < n
            invariant
                k <= n,
                n == images@.len(),
                dims == image_dims(images@),
                ids == image_ids(images@),
                cap == cap_of(*config),
                border == config.border_padding,
                forall|i: int, j: int| 0 <= i < j < n ==> ids[i] != ids[j],
                forall|j: int| 0 <= j < k ==> !unpackable(#[trigger] dims[j], cap, border),
            decreases n - k,
        {
            let w = images[k].image.width;
            let h = images[k].image.height;
            if w == 0 || h == 0 || w as u64 + 2 * border as u64 > cap as u64 || h as u64 + 2
                * border as u64 > cap as u64 {
                proof {
                    assert(dims[k as int] == (images@[k as int].image.width, images@[
                        k as int].image.height));
                    assert(first_unpackable(dims, cap, border, k as int));
                    assert(ids[k as int] == images@[k as int].id@);
                    assert(!has_duplicate_ids(ids));
                }
                return Err(SpritesheetError::CannotPackImage(images[k].id.clone()));
            }
            k = k + 1;
        }

        // Search the candidate sizes for the smallest accepted square canvas.
        let ghost bound = spec_lower_bound(dims);
        let mut c: u64 = 32;
        let lb = lower_bound_exec(images);
        while c < lb as u64 && 2 * c < lb as u64
            invariant
                lb as int == bound,
                c >= 1,
                spec_start(32, bound) == spec_start(c as int, bound),
            decreases lb as int - c,
        {
            c = 2 * c;
        }
        if c < lb as u64 {
            c = 2 * c;
        }
        proof {
            assert(spec_start(c as int, bound) == c as int);
        }
        let ghost start = spec_start(32, bound);
        proof {
            assert(!has_duplicate_ids(ids));
        }
        let mut chosen: Option<(u32, Vec<(u32, u32, u32, u32)>)> = None;
        loop
            invariant_except_break
                chosen is None,
            invariant
                c >= 1,
                n == images@.len(),
                dims == image_dims(images@),
                ids == image_ids(images@),
                cap == cap_of(*config),
                border == config.border_padding,
                padding == config.texture_padding,
                forall|j: int| 0 <= j < n ==> !unpackable(#[trigger] dims[j], cap, border),
                forall|j: int| 0 <= j < n ==> (#[trigger] images@[j]).image.wf(),
                2 * (cap as int) + padding <= u32::MAX,
                cap + border <= u32::MAX,
                (cap as int) * (cap as int) <= u32::MAX,
                spec_search(border, padding, dims, start, cap) == spec_search(
                    border,
                    padding,
                    dims,
                    c as int,
                    cap,
                ),
                !has_duplicate_ids(ids),
                start == spec_start(32, spec_lower_bound(dims)),
            ensures
                chosen is Some,
                spec_search(border, padding, dims, start, cap) is Some,
                chosen.unwrap().0 == spec_search(border, padding, dims, start, cap).unwrap().0,
                chosen.unwrap().1@ == spec_search(border, padding, dims, start, cap).unwrap().1,
            decreases cap - c,
        {
            if c > cap as u64 {
                proof {
                    assert(spec_search(border, padding, dims, c as int, cap) is None);
                    assert(!some_unpackable(dims, cap, border));
                }
                return Err(SpritesheetError::FailedToPackImage);
            }
            let cu = c as u32;
            proof {
                assert forall|j: int| 0 <= j < n implies 1 <= (#[trigger] images@[j]).image.width
                    && 1 <= images@[j].image.height && cu + images@[j].image.width + padding
                    <= u32::MAX && cu + images@[j].image.height + padding <= u32::MAX && images@[
                    j].image.width * images@[j].image.height <= u32::MAX by {
                    assert(!unpackable(dims[j], cap, border));
                    assert(dims[j] == (images@[j].image.width, images@[j].image.height));
                    assert(images@[j].image.width * images@[j].image.height <= (cap as int) * (
                    cap as int)) by (nonlinear_arith)
                        requires
                            0 <= images@[j].image.width <= cap,
                            0 <= images@[j].image.height <= cap,
                    ;
                }
            }
            let attempt = try_pack_at(cu, border, padding, images);
            match attempt {
                Some(rs) => {
                    if check_layout(&rs, images, cu, border) {
                        proof {
                            assert(accepts_at(border, padding, dims, cu));
                        }
                        chosen = Some((cu, rs));
                        break;
                    }
                },
                None => {},
            }
            proof {
                assert(!accepts_at(border, padding, dims, cu));
            }
            if c == cap as u64 {
                proof {
                    assert(spec_search(border, padding, dims, c as int, cap) is None);
                    assert(!some_unpackable(dims, cap, border));
                }
                return Err(SpritesheetError::FailedToPackImage);
            }
            if 2 * c <= cap as u64 {
                c = 2 * c;
            } else {
                c = cap as u64;
            }
        }
        proof {
            assert(!some_unpackable(dims, cap, border));
        }
        let (size, rs) = match chosen {
            Some(p) => p,
            None => {
                proof {
                    assert(false);
                }
                return Err(SpritesheetError::FailedToPackImage);
            },
        };
        proof {
            let (sz, srs) = spec_search(border, padding, dims, start, cap).unwrap();
            lemma_search_minimal(border, padding, dims, start, cap, sz, srs);
            lemma_spec_start_ge(32, bound);
            assert(accepts_at(border, padding, dims, size));
            assert(valid_layout(rs@, dims, size, border));
            assert(1 <= size <= cap);
        }

        // Assemble the frames, sorted by key.
        let mut frames: Vec<AtlasFrame> = Vec::new();
        let ghost built = built_frames(ids, rs@);
        let mut k2: usize = 0;
        while k2 < n
            invariant
                k2 <= n,
                n == images@.len(),
                dims == image_dims(images@),
                ids == image_ids(images@),
                built == built_frames(ids, rs@),
                rs@.len() == n,
                forall|i: int, j: int| 0 <= i < j < n ==> ids[i] != ids[j],
                frames_model(frames@) == spec_sort_frames(built.take(k2 as int)),
                frames@.len() == k2,
                frames_strictly_sorted(frames_model(frames@)),
                forall|j: int|
                    0 <= j < k2 ==> exists|i: int|
                        0 <= i < k2 && (#[trigger] frames_model(frames@)[j]) == built[i],
                forall|j: int|
                    0 <= j < frames@.len() ==> exists|i: int|
                        0 <= i < k2 && (#[trigger] frames@[j]).key@ == ids[i],
                forall|i: int| 0 <= i < k2 ==> frames_model(frames@).contains(#[trigger] built[i]),
            decreases n - k2,
        {
            let (x, y, w, h) = rs[k2];
            let f = AtlasFrame {
                key: images[k2].id.clone(),
                frame: SerializableRect { x, y, w, h },
            };
            proof {
                assert(f.model() == built[k2 as int]);
                assert forall|j: int| 0 <= j < frames@.len() implies (#[trigger] frames@[j]).key@
                    != f.key@ by {
                    let i = choose|i: int|
                        0 <= i < k2 && (#[trigger] frames@[j]).key@ == ids[i];
                    assert(ids[i] != ids[k2 as int]);
                }
                assert(forall|j: int|
                    0 <= j < frames@.len() ==> (#[trigger] frames_model(frames@)[j]).key
                        == frames@[j].key@);
                lemma_insert_frame(frames_model(frames@), f.model());
                assert(built.take(k2 + 1).drop_last() =~= built.take(k2 as int));
                assert(built.take(k2 + 1).last() == built[k2 as int]);
            }
            let ghost frames0 = frames@;
            insert_frame_sorted(&mut frames, f);
            proof {
                assert forall|j: int| 0 <= j < frames@.len() implies exists|i: int|
                    0 <= i < k2 + 1 && (#[trigger] frames_model(frames@)[j]) == built[i] by {
                    assert(frames_model(frames@)[j] == spec_insert_frame(
                        frames_model(frames0),
                        built[k2 as int],
                    )[j]);
                    if frames_model(frames@)[j] == built[k2 as int] {
                    } else {
                        assert(frames_model(frames0).contains(frames_model(frames@)[j]));
                        let w2 = choose|w2: int|
                            0 <= w2 < frames_model(frames0).len() && frames_model(frames0)[w2]
                                == frames_model(frames@)[j];
                        let i = choose|i: int|
                            0 <= i < k2 && (#[trigger] frames_model(frames0)[w2]) == built[i];
                        assert(frames_model(frames@)[j] == built[i]);
                    }
                }
                assert forall|j: int| 0 <= j < frames@.len() implies exists|i: int|
                    0 <= i < k2 + 1 && (#[trigger] frames@[j]).key@ == ids[i] by {
                    let i = choose|i: int|
                        0 <= i < k2 + 1 && (#[trigger] frames_model(frames@)[j]) == built[i];
                    assert(frames_model(frames@)[j].key == frames@[j].key@);
                    assert(built[i].key == ids[i]);
                }
                assert forall|i: int| 0 <= i < k2 + 1 implies frames_model(frames@).contains(
                    #[trigger] built[i],
                ) by {
                    if i == k2 {
                        assert(frames_model(frames@).contains(built[k2 as int]));
                    } else {
                        assert(frames_model(frames0).contains(built[i]));
                        let w2 = choose|w2: int|
                            0 <= w2 < frames_model(frames0).len() && frames_model(frames0)[w2]
                                == built[i];
                        assert(frames_model(frames@).contains(frames_model(frames0)[w2]));
                    }
                }
            }
            k2 = k2 + 1;
        }
        proof {
            assert(built.take(n as int) =~= built);
        }

        // The composited canvas.
        proof {
            assert(4 * (size as int) * (size as int) <= 4 * (cap as int) * (cap as int))
                by (nonlinear_arith)
                requires
                    1 <= size <= cap,
            ;
        }
        let image_data = composite(size, border, images, &rs);

        // The asset and its canonical serialized form.
        let mut metadata = AtlasMetadata::default();
        metadata.skip_serialization = config.skip_metadata_serialization;
        let atlas_asset = AtlasAsset {
            size: [size, size],
            filename: filename.to_owned(),
            frames,
            metadata,
        };
        let ghost model = atlas_asset.model();
        proof {
            // The sorted frames are the built frames: strict sortedness and
            // membership give the wellformedness claims.
            assert(model.frames == spec_sort_frames(built));
            assert forall|i: int|
                0 <= i < model.frames.len() implies (#[trigger] model.frames[i]).frame.in_bounds(
                size,
                size,
            ) by {
                let w2 = choose|w2: int| 0 <= w2 < n && model.frames[i] == built[w2];
                assert(built[w2].frame == rect_of(rs@[w2]));
                assert(rs@[w2].0 + rs@[w2].2 + border <= size);
                assert(rs@[w2].1 + rs@[w2].3 + border <= size);
            }
            assert forall|i: int, j: int|
                0 <= i < model.frames.len() && 0 <= j < model.frames.len() && i
                    != j implies (#[trigger] model.frames[i]).frame.disjoint_from(
                (#[trigger] model.frames[j]).frame,
            ) by {
                let wi = choose|wi: int| 0 <= wi < n && model.frames[i] == built[wi];
                let wj = choose|wj: int| 0 <= wj < n && model.frames[j] == built[wj];
                assert(model.frames[i].key != model.frames[j].key);
                assert(built[wi].key == ids[wi] && built[wj].key == ids[wj]);
                assert(wi != wj);
                assert(rect_of(rs@[wi]).disjoint_from(rect_of(rs@[wj])));
            }
            assert(atlas_asset.wf());
            // Each frame's region of the canvas is its source image's pixels.
            assert forall|i: int| 0 <= i < atlas_asset.frames@.len() implies frame_matches_source(
                image_data,
                (#[trigger] atlas_asset.frames@[i]).model(),
                images@,
            ) by {
                let fm = atlas_asset.frames@[i].model();
                assert(model.frames[i] == fm);
                let w2 = choose|w2: int| 0 <= w2 < n && model.frames[i] == built[w2];
                assert(built[w2] == FrameModel { key: ids[w2], frame: rect_of(rs@[w2]) });
                assert(images@[w2].id@ == ids[w2]);
                assert(rs@[w2].2 == image_dims(images@)[w2].0);
                assert(rs@[w2].3 == image_dims(images@)[w2].1);
                assert(image_dims(images@)[w2] == (images@[w2].image.width, images@[
                    w2].image.height));
                assert forall|dx: int, dy: int|
                    0 <= dx < fm.frame.w && 0 <= dy < fm.frame.h implies image_data.pixel_at(
                    fm.frame.x + dx,
                    fm.frame.y + dy,
                ) == images@[w2].image.pixel_at(dx, dy) by {
                    assert(images@[w2].image.pixel_at(dx, dy) == images@[w2].image.pixel_at(
                        dx,
                        dy,
                    ));
                }
                assert(images@[w2] == images@[w2]);
            }
            // Every built frame stands in the sorted list, so a point outside
            // all sorted frames is outside every placed rectangle and the
            // canvas is transparent there.
            assert forall|x: int, y: int|
                0 <= x < image_data.width && 0 <= y < image_data.height && !frame_covers(
                    model.frames,
                    x,
                    y,
                ) implies image_data.pixel_at(x, y) == (0u8, 0u8, 0u8, 0u8) by {
                if covered(rs@, x, y) {
                    let k3 = choose|k3: int|
                        0 <= k3 < rs@.len() && point_in_rect(#[trigger] rs@[k3], x, y);
                    assert(frames_model(atlas_asset.frames@).contains(built[k3]));
                    let i3 = choose|i3: int|
                        0 <= i3 < model.frames.len() && model.frames[i3] == built[k3];
                    assert(built[k3].frame == rect_of(rs@[k3]));
                    assert(model.frames[i3].frame.x <= x < model.frames[i3].frame.x
                        + model.frames[i3].frame.w && model.frames[i3].frame.y <= y
                        < model.frames[i3].frame.y + model.frames[i3].frame.h);
                    assert(frame_covers(model.frames, x, y));
                    assert(false);
                }
            }
        }
        let atlas_asset_json = crate::wire::atlas_to_json(&atlas_asset);
        Ok(Spritesheet { image_data, atlas_asset, atlas_asset_json })
    }
}

/// The width and height of the largest input image, and at least 1.
fn lower_bound_exec(images: &Vec<ImageFile>) -> (r: u32)
    ensures
        r as int == spec_lower_bound(image_dims(images@)),
{
    let mut r: u32 = 1;
    let n = images.len();
    let mut k: usize = 0;
    while k < n
        invariant
            k <= n,
            n == images@.len(),
            r as int == spec_lower_bound(image_dims(images@).take(k as int)),
        decreases n - k,
    {
        let w = images[k].image.width;
        let h = images[k].image.height;
        proof {
            let dims = image_dims(images@);
            assert(dims.take(k + 1).drop_last() =~= dims.take(k as int));
            assert(dims.take(k + 1).last() == dims[k as int]);
            assert(dims[k as int] == (images@[k as int].image.width, images@[
                k as int].image.height));
        }
        if w >= h {
            if w > r {
                r = w;
            }
        } else {
            if h > r {
                r = h;
            }
        }
        k = k + 1;
    }
    proof {
        assert(image_dims(images@).take(n as int) =~= image_dims(images@));
    }
    r
}

/// The first candidate reaches the lower bound.
proof fn lemma_spec_start_reaches(c: int, bound: int)
    requires
        c >= 1,
    ensures
        c < bound ==> spec_start(c, bound) >= bound,
        c >= bound ==> spec_start(c, bound) == c,
    decreases bound - c,
{
    if c < bound && 2 * c < bound {
        lemma_spec_start_reaches(2 * c, bound);
    }
}

/// A successful build never selects a canvas smaller than its largest input
/// image's width or height: the chosen size is at least the lower bound the
/// candidate search starts from (minimality, lower-bound half).
pub proof fn lemma_chosen_size_at_least_largest_image(
    border: u32,
    padding: u32,
    cap: u32,
    skip_metadata: bool,
    dims: Seq<(u32, u32)>,
    ids: Seq<Seq<char>>,
    filename: Seq<char>,
    m: AtlasModel,
)
    requires
        build_ok_model(border, padding, cap, skip_metadata, dims, ids, filename) == Some(m),
    ensures
        m.width as int >= spec_lower_bound(dims),
        m.width == m.height,
{
    let bound = spec_lower_bound(dims);
    let start = spec_start(32, bound);
    let (size, rs) = spec_search(border, padding, dims, start, cap).unwrap();
    lemma_search_minimal(border, padding, dims, start, cap, size, rs);
    lemma_spec_start_reaches(32, bound);
}

/// Building with metadata suppression yields a document with no metadata
/// member at all: the serialized model carries `None`, and parsing the
/// document back confirms it.
pub proof fn lemma_metadata_suppression(
    border: u32,
    padding: u32,
    cap: u32,
    dims: Seq<(u32, u32)>,
    ids: Seq<Seq<char>>,
    filename: Seq<char>,
    m: AtlasModel,
)
    requires
        build_ok_model(border, padding, cap, true, dims, ids, filename) == Some(m),
        crate::wire::atlas_reflects(m),
    ensures
        m.metadata is None,
        crate::wire::emit_meta_member(m.metadata) == Seq::<char>::empty(),
        crate::wire::parse_atlas_doc(crate::wire::emit_atlas(m)) == Some(m),
{
    crate::wire::lemma_parse_atlas_doc_of_emit(m);
}

} // verus!
