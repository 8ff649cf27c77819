//! The image collector: derives stable, human-meaningful keys from source
//! paths and decodes image bytes, skipping files that do not decode.
use vstd::prelude::*;

use crate::builder::ImageFile;
use crate::imagebuf::Rgba8Image;
use crate::text::str_to_chars;

verus! {

/// Path separators are normalized to `/`.
pub open spec fn normalize_sep(c: char) -> char {
    if c == '\\' {
        '/'
    } else {
        c
    }
}

/// The sequence with every backslash replaced by a slash.
pub open spec fn normalized_seps(s: Seq<char>) -> Seq<char> {
    s.map(|i: int, c: char| normalize_sep(c))
}

/// The sequence holds a dot.
pub open spec fn has_dot(s: Seq<char>) -> bool {
    exists|j: int| 0 <= j < s.len() && s[j] == '.'
}

/// The prefix of `s` before the last `.`, or all of `s` when it has none.
pub open spec fn before_last_dot(s: Seq<char>) -> Seq<char>
    decreases s.len(),
{
    if !has_dot(s) {
        s
    } else if s.last() == '.' {
        s.drop_last()
    } else {
        before_last_dot(s.drop_last())
    }
}

/// The key an image gets from its logical path: the extension after the
/// last dot stripped, and separators normalized.
pub open spec fn spec_image_key(id: Seq<char>) -> Seq<char> {
    spec_id_from_path(id)
}

/// The identifier a file gets from its path: everything before the last dot,
/// with separators normalized.
pub open spec fn spec_id_from_path(path: Seq<char>) -> Seq<char> {
    normalized_seps(before_last_dot(path))
}

/// Derives the identifier for a file from its path: the extension after the
/// last dot is cut, and separators are normalized.
pub fn id_from_path(path: &str) -> (r: String)
    ensures
        r@ == spec_id_from_path(path@),
{
    let chars = str_to_chars(path);
    let n = chars.len();
    let end = find_last_dot(&chars);
    proof {
        lemma_before_last_dot(path@, end as int);
    }
    let mut out: Vec<char> = Vec::new();
    let mut k: usize = 0;
    while k < end
        invariant
            k <= end,
            end <= n,
            n == path@.len(),
            chars@ == path@,
            out@ == normalized_seps(path@.take(end as int)).take(k as int),
        decreases end - k,
    {
        let c = chars[k];
        if c == '\\' {
            out.push('/');
        } else {
            out.push(c);
        }
        proof {
            let m = normalized_seps(path@.take(end as int));
            assert(m[k as int] == normalize_sep(path@[k as int]));
            assert(m.take(k + 1) =~= m.take(k as int).push(m[k as int]));
        }
        k = k + 1;
    }
    proof {
        assert(normalized_seps(path@.take(end as int)).take(end as int) =~= normalized_seps(
            path@.take(end as int),
        ));
    }
    crate::text::chars_to_string(&out)
}

/// The position of the last dot, or the length when there is none.
pub fn find_last_dot(chars: &Vec<char>) -> (cut: usize)
    ensures
        cut <= chars@.len(),
        cut < chars@.len() ==> chars@[cut as int] == '.' && (forall|j: int|
            cut < j < chars@.len() ==> chars@[j] != '.'),
        cut == chars@.len() ==> forall|j: int| 0 <= j < chars@.len() ==> chars@[j] != '.',
{
    let n = chars.len();
    let mut i: usize = n;
    while i > 0
        invariant
            i <= n,
            n == chars@.len(),
            forall|j: int| i <= j < n ==> chars@[j] != '.',
        decreases i,
    {
        i = i - 1;
        if chars[i] == '.' {
            return i;
        }
    }
    n
}

/// `before_last_dot` keeps exactly the characters before the last dot.
pub proof fn lemma_before_last_dot_public(s: Seq<char>, end: int)
    requires
        0 <= end <= s.len(),
        end < s.len() ==> s[end] == '.',
        forall|j: int| end < j < s.len() ==> s[j] != '.',
        end == s.len() ==> forall|j: int| 0 <= j < s.len() ==> s[j] != '.',
    ensures
        before_last_dot(s) == s.take(end),
{
    lemma_before_last_dot(s, end);
}

/// `before_last_dot` keeps exactly the characters before the last dot.
proof fn lemma_before_last_dot(s: Seq<char>, end: int)
    requires
        0 <= end <= s.len(),
        end < s.len() ==> s[end] == '.',
        forall|j: int| end < j < s.len() ==> s[j] != '.',
        end == s.len() ==> forall|j: int| 0 <= j < s.len() ==> s[j] != '.',
    ensures
        before_last_dot(s) == s.take(end),
    decreases s.len(),
{
    if end == s.len() {
        assert(!has_dot(s));
        assert(s.take(end) =~= s);
    } else if end == s.len() - 1 {
        assert(has_dot(s));
        assert(s.last() == '.');
        assert(s.drop_last() =~= s.take(end));
    } else {
        assert(has_dot(s));
        assert(s.last() != '.');
        assert(forall|j: int| 0 <= j < s.drop_last().len() ==> s.drop_last()[j] == s[j]);
        assert(s.drop_last()[end] == '.');
        lemma_before_last_dot(s.drop_last(), end);
        assert(s.drop_last().take(end) =~= s.take(end));
    }
}

/// What decoding a byte buffer as an image yields: the RGBA dimensions and
/// pixel bytes, or `None` for bytes that no supported format decodes. The
/// decoders read nothing but the bytes.
pub uninterp spec fn spec_decoded_rgba(bytes: Seq<u8>) -> Option<(u32, u32, Seq<u8>)>;

/// The model of a decoded image.
pub open spec fn image_model(img: Rgba8Image) -> (u32, u32, Seq<u8>) {
    (img.width, img.height, img.pixels@)
}

/// Relies on `image::load_from_memory` (converted to RGBA by
/// `DynamicImage::to_rgba8`, whose buffer holds exactly four bytes per
/// pixel): decodes an encoded image, or fails on bytes that are not a
/// supported image.
#[verifier::external_body]
fn decode_rgba(bytes: &Vec<u8>) -> (r: Option<Rgba8Image>)
    ensures
        match spec_decoded_rgba(bytes@) {
            Some(d) => r is Some && image_model(r.unwrap()) == d,
            None => r is None,
        },
        r is Some ==> r.unwrap().wf(),
{
    match image::load_from_memory(bytes.as_slice()) {
        Ok(img) => {
            let rgba = img.to_rgba8();
            let width = rgba.width();
            let height = rgba.height();
            let pixels = rgba.into_raw();
            Some(Rgba8Image { width, height, pixels })
        },
        Err(_) => None,
    }
}

impl ImageFile {
    /// Decodes one source image and keys it by its logical path, with
    /// separators normalized and the extension stripped. Returns `None` when
    /// the bytes do not decode as an image.
    pub fn from_bytes(id: &str, bytes: &Vec<u8>) -> (r: Option<ImageFile>)
        ensures
            match spec_decoded_rgba(bytes@) {
                Some(d) => r is Some && r.unwrap().id@ == spec_image_key(id@) && image_model(
                    r.unwrap().image,
                ) == d && r.unwrap().image.wf(),
                None => r is None,
            },
    {
        let image = match decode_rgba(bytes) {
            Some(img) => img,
            None => {
                return None;
            },
        };
        Some(ImageFile { id: id_from_path(id), image })
    }
}

/// The length of the longest common prefix of `a` and `b`.
pub open spec fn common_prefix_len(a: Seq<char>, b: Seq<char>) -> int
    decreases a.len(),
{
    if a.len() == 0 || b.len() == 0 || a[0] != b[0] {
        0
    } else {
        1 + common_prefix_len(a.skip(1), b.skip(1))
    }
}

proof fn lemma_common_prefix_len(a: Seq<char>, b: Seq<char>)
    ensures
        0 <= common_prefix_len(a, b) <= a.len(),
        common_prefix_len(a, b) <= b.len(),
        forall|j: int| 0 <= j < common_prefix_len(a, b) ==> a[j] == b[j],
        common_prefix_len(a, b) < a.len() && common_prefix_len(a, b) < b.len() ==> a[
            common_prefix_len(a, b)] != b[common_prefix_len(a, b)],
    decreases a.len(),
{
    if a.len() != 0 && b.len() != 0 && a[0] == b[0] {
        lemma_common_prefix_len(a.skip(1), b.skip(1));
        let l = common_prefix_len(a, b);
        assert forall|j: int| 0 <= j < l implies a[j] == b[j] by {
            if j > 0 {
                assert(a.skip(1)[j - 1] == b.skip(1)[j - 1]);
            }
        }
        if l < a.len() && l < b.len() {
            assert(a.skip(1)[l - 1] == a[l]);
            assert(b.skip(1)[l - 1] == b[l]);
        }
    }
}

/// The length of the longest prefix that all paths share, measured against
/// the first path; meaningless for an empty list.
pub open spec fn all_common_prefix_len(paths: Seq<Seq<char>>, upto: int) -> int
    decreases upto,
{
    if upto <= 1 {
        if paths.len() == 0 {
            0
        } else {
            paths[0].len() as int
        }
    } else {
        let prev = all_common_prefix_len(paths, upto - 1);
        let cur = common_prefix_len(paths[0], paths[upto - 1]);
        if cur < prev {
            cur
        } else {
            prev
        }
    }
}

/// The end of the directory part within the first `l` characters of `s`: the
/// position just after the last separator, or 0 when there is none.
pub open spec fn dir_boundary(s: Seq<char>, l: int) -> int
    decreases l,
{
    if l <= 0 {
        0
    } else if s[l - 1] == '/' || s[l - 1] == '\\' {
        l
    } else {
        dir_boundary(s, l - 1)
    }
}

/// The common directory prefix of the paths: the longest common prefix of all
/// of them, cut back to the last path-separator boundary. With a single path
/// this is its containing directory; with none it is empty.
pub open spec fn spec_common_prefix(paths: Seq<Seq<char>>) -> Seq<char> {
    if paths.len() == 0 {
        Seq::<char>::empty()
    } else {
        paths[0].take(dir_boundary(paths[0], all_common_prefix_len(paths, paths.len() as int)))
    }
}

/// Computes the common directory prefix of the given paths.
pub fn get_common_prefix(paths: &Vec<String>) -> (r: String)
    ensures
        r@ == spec_common_prefix(paths@.map(|i: int, p: String| p@)),
{
    let ghost views = paths@.map(|i: int, p: String| p@);
    if paths.len() == 0 {
        proof {
            reveal_strlit("");
        }
        let empty = String::new();
        return empty;
    }
    let first = str_to_chars(paths[0].as_str());
    let n = paths.len();
    let mut l: usize = first.len();
    proof {
        assert(views[0] == paths@[0]@);
        assert(all_common_prefix_len(views, 1) == l as int);
    }
    let mut i: usize = 1;
    while i < n
        invariant
            1 <= i <= n,
            n == paths@.len(),
            views == paths@.map(|k: int, p: String| p@),
            first@ == views[0],
            l <= first@.len(),
            l as int == all_common_prefix_len(views, i as int),
        decreases n - i,
    {
        let other = str_to_chars(paths[i].as_str());
        proof {
            assert(views[i as int] == paths@[i as int]@);
            lemma_common_prefix_len(views[0], views[i as int]);
        }
        let cur = common_prefix_len_exec(&first, &other);
        if cur < l {
            l = cur;
        }
        proof {
            assert(all_common_prefix_len(views, i + 1) == l as int);
        }
        i = i + 1;
    }
    // Cut back to the last separator boundary.
    let end = find_dir_boundary(&first, l);
    proof {
        assert(end as int == dir_boundary(views[0], l as int));
    }
    let mut out: Vec<char> = Vec::new();
    let mut k: usize = 0;
    while k < end
        invariant
            k <= end,
            end <= first@.len(),
            first@ == views[0],
            out@ == views[0].take(end as int).take(k as int),
        decreases end - k,
    {
        out.push(first[k]);
        proof {
            let t = views[0].take(end as int);
            assert(t.take(k + 1) =~= t.take(k as int).push(t[k as int]));
        }
        k = k + 1;
    }
    proof {
        assert(views[0].take(end as int).take(end as int) =~= views[0].take(end as int));
    }
    crate::text::chars_to_string(&out)
}

/// Finds the directory boundary: the position just after the last separator
/// within the first `l` characters.
fn find_dir_boundary(first: &Vec<char>, l: usize) -> (end: usize)
    requires
        l <= first@.len(),
    ensures
        end <= l,
        end as int == dir_boundary(first@, l as int),
{
    let mut end: usize = l;
    while end > 0
        invariant
            end <= l,
            l <= first@.len(),
            dir_boundary(first@, l as int) == dir_boundary(first@, end as int),
        decreases end,
    {
        let c = first[end - 1];
        if c == '/' || c == '\\' {
            return end;
        }
        end = end - 1;
    }
    end
}

/// Computes the length of the longest common prefix of two character vectors.
fn common_prefix_len_exec(a: &Vec<char>, b: &Vec<char>) -> (r: usize)
    ensures
        r as int == common_prefix_len(a@, b@),
{
    let limit = if a.len() < b.len() {
        a.len()
    } else {
        b.len()
    };
    let mut m: usize = 0;
    while m < limit
        invariant
            m <= limit,
            limit <= a@.len(),
            limit <= b@.len(),
            limit == if a@.len() < b@.len() {
                a@.len()
            } else {
                b@.len()
            },
            forall|j: int| 0 <= j < m ==> a@[j] == b@[j],
        decreases limit - m,
    {
        if a[m] != b[m] {
            proof {
                lemma_common_prefix_of_mismatch(a@, b@, m as int);
            }
            return m;
        }
        m = m + 1;
    }
    proof {
        lemma_common_prefix_of_limit(a@, b@, limit as int);
    }
    limit
}

/// A mismatch at `m` after `m` equal characters pins the common prefix at `m`.
proof fn lemma_common_prefix_of_mismatch(a: Seq<char>, b: Seq<char>, m: int)
    requires
        0 <= m < a.len(),
        m < b.len(),
        forall|j: int| 0 <= j < m ==> a[j] == b[j],
        a[m] != b[m],
    ensures
        common_prefix_len(a, b) == m,
    decreases m,
{
    if m > 0 {
        assert(forall|j: int| 0 <= j < m - 1 ==> a.skip(1)[j] == b.skip(1)[j]);
        assert(a.skip(1)[m - 1] == a[m] && b.skip(1)[m - 1] == b[m]);
        lemma_common_prefix_of_mismatch(a.skip(1), b.skip(1), m - 1);
    }
}

/// When one sequence is a prefix of the other, the common prefix is the
/// shorter length.
proof fn lemma_common_prefix_of_limit(a: Seq<char>, b: Seq<char>, m: int)
    requires
        0 <= m,
        m == if a.len() < b.len() {
            a.len() as int
        } else {
            b.len() as int
        },
        forall|j: int| 0 <= j < m ==> a[j] == b[j],
    ensures
        common_prefix_len(a, b) == m,
    decreases m,
{
    if m > 0 {
        assert(forall|j: int| 0 <= j < m - 1 ==> a.skip(1)[j] == b.skip(1)[j]);
        lemma_common_prefix_of_limit(a.skip(1), b.skip(1), m - 1);
    }
}

/// The models of collected images, in order.
pub open spec fn image_file_models(r: Seq<ImageFile>) -> Seq<(Seq<char>, (u32, u32, Seq<u8>))> {
    r.map(|i: int, f: ImageFile| (f.id@, image_model(f.image)))
}

/// What collecting yields: the files that decode, in order, each keyed by its
/// logical path and carrying its decoded pixels.
pub open spec fn spec_collect(files: Seq<(String, Vec<u8>)>) -> Seq<
    (Seq<char>, (u32, u32, Seq<u8>)),
>
    decreases files.len(),
{
    if files.len() == 0 {
        Seq::<(Seq<char>, (u32, u32, Seq<u8>))>::empty()
    } else {
        let rest = spec_collect(files.drop_last());
        match spec_decoded_rgba(files.last().1@) {
            Some(d) => rest.push((spec_image_key(files.last().0@), d)),
            None => rest,
        }
    }
}

/// Collects the decodable images from `(logical path, bytes)` pairs, in
/// order: each decoded image is keyed by its logical path (the caller strips
/// any shared directory prefix first); files that do not decode are skipped.
pub fn collect_images(files: &Vec<(String, Vec<u8>)>) -> (r: Vec<ImageFile>)
    ensures
        image_file_models(r@) == spec_collect(files@),
        forall|j: int| 0 <= j < r@.len() ==> (#[trigger] r@[j]).image.wf(),
{
    let mut out: Vec<ImageFile> = Vec::new();
    let n = files.len();
    let mut k: usize = 0;
    proof {
        assert(files@.take(0) =~= Seq::<(String, Vec<u8>)>::empty());
        assert(image_file_models(out@) =~= spec_collect(files@.take(0)));
    }
    while k < n
        invariant
            k <= n,
            n == files@.len(),
            image_file_models(out@) == spec_collect(files@.take(k as int)),
            forall|j: int| 0 <= j < out@.len() ==> (#[trigger] out@[j]).image.wf(),
        decreases n - k,
    {
        let ghost out0 = out@;
        match ImageFile::from_bytes(files[k].0.as_str(), &files[k].1) {
            Some(f) => {
                out.push(f);
            },
            None => {},
        }
        proof {
            assert(files@.take(k + 1).drop_last() =~= files@.take(k as int));
            assert(files@.take(k + 1).last() == files@[k as int]);
            match spec_decoded_rgba(files@[k as int].1@) {
                Some(d) => {
                    assert(image_file_models(out@) =~= image_file_models(out0).push(
                        (spec_image_key(files@[k as int].0@), d),
                    ));
                },
                None => {
                    assert(out@ == out0);
                },
            }
            assert(image_file_models(out@) =~= spec_collect(files@.take(k + 1)));
        }
        k = k + 1;
    }
    proof {
        assert(files@.take(n as int) =~= files@);
    }
    out
}

} // verus!
