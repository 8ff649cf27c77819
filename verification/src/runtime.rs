//! The runtime side: a loaded, queryable atlas, the loader that builds one
//! from a serialized document, and the query service over several loaded
//! atlases.
use vstd::prelude::*;

use crate::atlas::{frames_model, AtlasAsset, AtlasModel, SerializableRect};
use crate::text::str_to_chars;
use crate::wire::{asset_matches_model, parse_atlas_doc, parse_atlas_doc_exec};

verus! {

/// An opaque reference to a decoded image owned by the host application.
#[derive(Clone, Copy, Debug, PartialEq, Eq, Structural)]
pub struct ImageHandle {
    pub id: u64,
}

/// Errors that can occur while accessing and creating drawables from
/// [`RpackAtlasAsset`].
#[derive(Clone, Copy, Debug, PartialEq, Eq, Structural)]
pub enum RpackAtlasError {
    /// No atlas is loaded yet.
    NoAtlas,
    /// No loaded atlas contains the provided key.
    WrongKey,
}

/// A reference into an atlas layout: the layout's rectangles and the index of
/// one of them.
#[derive(Clone, Debug)]
pub struct TextureAtlas {
    /// The rectangles of the atlas layout, in frame order.
    pub layout: Vec<SerializableRect>,
    /// The index of the referenced frame.
    pub index: usize,
}

/// A drawable sprite reference: an image and optionally a frame within it.
#[derive(Clone, Debug)]
pub struct Sprite {
    pub image: ImageHandle,
    pub texture_atlas: Option<TextureAtlas>,
}

/// A drawable UI-node reference: an image and optionally a frame within it.
#[derive(Clone, Debug)]
pub struct ImageNode {
    pub image: ImageHandle,
    pub texture_atlas: Option<TextureAtlas>,
}

/// A loaded atlas: the packed image, the layout of frame rectangles, and the
/// map from original file keys to layout indices.
#[derive(Clone, Debug)]
pub struct RpackAtlasAsset {
    /// The texture atlas image.
    pub image: ImageHandle,
    /// The texture atlas layout: one rectangle per frame.
    pub atlas: Vec<SerializableRect>,
    /// The map of the original file keys to indices of the texture atlas.
    pub files: Vec<(String, usize)>,
}

impl RpackAtlasAsset {
    /// There is an entry for `key`.
    pub open spec fn spec_has_key(self, key: Seq<char>) -> bool {
        exists|i: int| 0 <= i < self.files@.len() && (#[trigger] self.files@[i]).0@ == key
    }

    /// `i` is the first entry for `key`.
    pub open spec fn spec_first_entry(self, key: Seq<char>, i: int) -> bool {
        &&& 0 <= i < self.files@.len()
        &&& self.files@[i].0@ == key
        &&& forall|j: int| 0 <= j < i ==> (#[trigger] self.files@[j]).0@ != key
    }

    /// The map is a bijection onto `0..atlas.len()`: entry `i` maps to index
    /// `i`, and keys are distinct.
    pub open spec fn wf(self) -> bool {
        &&& self.files@.len() == self.atlas@.len()
        &&& forall|i: int| 0 <= i < self.files@.len() ==> (#[trigger] self.files@[i]).1 == i
        &&& forall|i: int, j: int|
            0 <= i < j < self.files@.len() ==> (#[trigger] self.files@[i]).0@ != (
            #[trigger] self.files@[j]).0@
    }

    /// The first entry for `key`, if any.
    fn index_of(&self, key: &str) -> (r: Option<usize>)
        ensures
            match r {
                Some(i) => self.spec_first_entry(key@, i as int),
                None => !self.spec_has_key(key@),
            },
    {
        let n = self.files.len();
        let mut i: usize = 0;
        while i < n
            invariant
                i <= n,
                n == self.files@.len(),
                forall|j: int| 0 <= j < i ==> (#[trigger] self.files@[j]).0@ != key@,
            decreases n - i,
        {
            if crate::text::str_le(self.files[i].0.as_str(), key) && crate::text::str_le(
                key,
                self.files[i].0.as_str(),
            ) {
                proof {
                    crate::text::lemma_key_le_antisymmetric(self.files@[i as int].0@, key@);
                }
                return Some(i);
            }
            proof {
                crate::text::lemma_key_le_total(self.files@[i as int].0@, key@);
                crate::text::lemma_key_le_reflexive(self.files@[i as int].0@);
                if self.files@[i as int].0@ == key@ {
                    assert(false);
                }
            }
            i = i + 1;
        }
        None
    }

    /// Retrieves the atlas data (texture atlas and image) for the given key,
    /// if available: the layout with the first matching frame's index, or
    /// `WrongKey`.
    pub fn get_atlas_data(&self, key: &str) -> (r: Result<(TextureAtlas, ImageHandle),
        RpackAtlasError>)
        ensures
            match r {
                Ok(data) => self.spec_first_entry(key@, data.0.index as int) && data.0.layout@
                    == self.atlas@ && data.1 == self.image && self.spec_has_key(key@),
                Err(e) => e == RpackAtlasError::WrongKey && !self.spec_has_key(key@),
            },
    {
        match self.index_of(key) {
            Some(i) => Ok((TextureAtlas { layout: copy_rects(&self.atlas), index: i }, self.image)),
            None => Err(RpackAtlasError::WrongKey),
        }
    }

    /// Creates a sprite reference for the given key, if the atlas contains it.
    pub fn make_sprite(&self, key: &str) -> (r: Option<Sprite>)
        ensures
            match r {
                Some(sprite) => self.spec_has_key(key@) && sprite.image == self.image
                    && sprite.texture_atlas is Some && self.spec_first_entry(
                    key@,
                    sprite.texture_atlas.unwrap().index as int,
                ) && sprite.texture_atlas.unwrap().layout@ == self.atlas@,
                None => !self.spec_has_key(key@),
            },
    {
        match self.get_atlas_data(key) {
            Ok((atlas, image)) => Some(Sprite { image, texture_atlas: Some(atlas) }),
            Err(_) => None,
        }
    }

    /// Creates a sprite reference for the given key, or `WrongKey`.
    pub fn try_make_sprite(&self, key: &str) -> (r: Result<Sprite, RpackAtlasError>)
        ensures
            match r {
                Ok(sprite) => self.spec_has_key(key@) && sprite.image == self.image
                    && sprite.texture_atlas is Some && self.spec_first_entry(
                    key@,
                    sprite.texture_atlas.unwrap().index as int,
                ) && sprite.texture_atlas.unwrap().layout@ == self.atlas@,
                Err(e) => e == RpackAtlasError::WrongKey && !self.spec_has_key(key@),
            },
    {
        match self.get_atlas_data(key) {
            Ok((atlas, image)) => Ok(Sprite { image, texture_atlas: Some(atlas) }),
            Err(e) => Err(e),
        }
    }

    /// Creates a UI-node reference for the given key, or `WrongKey`.
    pub fn try_make_image_node(&self, key: &str) -> (r: Result<ImageNode, RpackAtlasError>)
        ensures
            match r {
                Ok(node) => self.spec_has_key(key@) && node.image == self.image
                    && node.texture_atlas is Some && self.spec_first_entry(
                    key@,
                    node.texture_atlas.unwrap().index as int,
                ) && node.texture_atlas.unwrap().layout@ == self.atlas@,
                Err(e) => e == RpackAtlasError::WrongKey && !self.spec_has_key(key@),
            },
    {
        match self.get_atlas_data(key) {
            Ok((atlas, image)) => Ok(ImageNode { image, texture_atlas: Some(atlas) }),
            Err(e) => Err(e),
        }
    }
}

/// Copies a vector of rectangles.
fn copy_rects(v: &Vec<SerializableRect>) -> (r: Vec<SerializableRect>)
    ensures
        r@ == v@,
{
    let mut r: Vec<SerializableRect> = Vec::new();
    let n = v.len();
    let mut i: usize = 0;
    while i < n
        invariant
            i <= n,
            n == v@.len(),
            r@ == v@.take(i as int),
        decreases n - i,
    {
        r.push(v[i]);
        proof {
            assert(v@.take(i + 1) =~= v@.take(i as int).push(v@[i as int]));
        }
        i = i + 1;
    }
    proof {
        assert(v@.take(n as int) =~= v@);
    }
    r
}

/// Errors that can occur while loading a `RpackAtlasAsset`.
#[derive(Clone, Debug)]
#[non_exhaustive]
pub enum RpackAtlasAssetError {
    /// The `.rpack.json` document is malformed.
    ParsingError(String),
    /// The referenced image asset is missing or could not be decoded.
    LoadingImageAsset(String),
    /// Two frames share a key, which would make lookup ambiguous.
    DuplicateFrameKey(String),
}

/// Two frames of the document share a key.
pub open spec fn has_duplicate_keys(frames: Seq<crate::atlas::FrameModel>) -> bool {
    exists|i: int, j: int|
        0 <= i < j < frames.len() && (#[trigger] frames[i]).key == (#[trigger] frames[j]).key
}

/// The loaded atlas holds exactly the document's frames: rectangle `i` of the
/// layout is frame `i`'s rectangle, and key `i` maps to index `i`.
pub open spec fn loaded_from(a: RpackAtlasAsset, m: AtlasModel, image: ImageHandle) -> bool {
    &&& a.image == image
    &&& a.atlas@.len() == m.frames.len()
    &&& a.files@.len() == m.frames.len()
    &&& forall|i: int| 0 <= i < m.frames.len() ==> a.atlas@[i] == (#[trigger] m.frames[i]).frame
    &&& forall|i: int|
        0 <= i < m.frames.len() ==> (#[trigger] a.files@[i]).0@ == m.frames[i].key && a.files@[
            i].1 == i
}

/// The loader responsible for building a `RpackAtlasAsset` from the text of a
/// `.rpack.json` document and the image the host resolved for it.
#[derive(Clone, Copy, Debug)]
pub struct RpackAtlasAssetLoader;

impl RpackAtlasAssetLoader {
    /// The file extension this loader handles.
    pub fn extensions(&self) -> (r: &'static str)
        ensures
            r@ == "rpack.json"@,
    {
        "rpack.json"
    }

    /// Builds a queryable atlas from a serialized atlas document and the
    /// decoded image's handle. Fails on a malformed document, and on a
    /// document in which two frames share a key.
    pub fn load_from_json(&self, text: &str, image: ImageHandle) -> (r: Result<RpackAtlasAsset,
        RpackAtlasAssetError>)
        ensures
            match r {
                Ok(a) => {
                    &&& parse_atlas_doc(text@) is Some
                    &&& !has_duplicate_keys(parse_atlas_doc(text@).unwrap().frames)
                    &&& loaded_from(a, parse_atlas_doc(text@).unwrap(), image)
                    &&& a.wf()
                },
                Err(e) => match e {
                    RpackAtlasAssetError::ParsingError(_) => parse_atlas_doc(text@) is None,
                    RpackAtlasAssetError::DuplicateFrameKey(_) => parse_atlas_doc(text@) is Some
                        && has_duplicate_keys(parse_atlas_doc(text@).unwrap().frames),
                    _ => false,
                },
            },
    {
        let chars = str_to_chars(text);
        let asset = match parse_atlas_doc_exec(&chars) {
            Some(a) => a,
            None => {
                return Err(RpackAtlasAssetError::ParsingError("could not parse asset".to_owned()));
            },
        };
        let ghost m = parse_atlas_doc(text@).unwrap();
        proof {
            assert(m.frames == frames_model(asset.frames@));
            assert(forall|i: int|
                0 <= i < asset.frames@.len() ==> (#[trigger] m.frames[i]) == asset.frames@[
                    i].model());
        }
        let mut atlas: Vec<SerializableRect> = Vec::new();
        let mut files: Vec<(String, usize)> = Vec::new();
        let n = asset.frames.len();
        let mut k: usize = 0;
        while k < n
            invariant
                k <= n,
                n == asset.frames@.len(),
                m == parse_atlas_doc(text@).unwrap(),
                parse_atlas_doc(text@) is Some,
                m.frames.len() == n,
                forall|i: int|
                    0 <= i < n ==> (#[trigger] m.frames[i]).key == asset.frames@[i].key@,
                atlas@.len() == k,
                files@.len() == k,
                forall|i: int| 0 <= i < k ==> atlas@[i] == (#[trigger] asset.frames@[i]).frame,
                forall|i: int|
                    0 <= i < k ==> (#[trigger] files@[i]).0@ == asset.frames@[i].key@ && files@[
                        i].1 == i,
                forall|i: int, j: int|
                    0 <= i < j < k ==> (#[trigger] files@[i]).0@ != (#[trigger] files@[j]).0@,
            decreases n - k,
        {
            // Reject a key that an earlier frame already used.
            let mut i: usize = 0;
            while i < k
                invariant
                    i <= k,
                    k < n,
                    n == asset.frames@.len(),
                    m == parse_atlas_doc(text@).unwrap(),
                    parse_atlas_doc(text@) is Some,
                    m.frames.len() == n,
                    forall|j: int|
                        0 <= j < n ==> (#[trigger] m.frames[j]).key == asset.frames@[j].key@,
                    files@.len() == k,
                    forall|j: int|
                        0 <= j < k ==> (#[trigger] files@[j]).0@ == asset.frames@[j].key@,
                    forall|j: int|
                        0 <= j < i ==> (#[trigger] files@[j]).0@ != asset.frames@[k as int].key@,
                decreases k - i,
            {
                let le1 = crate::text::str_le(files[i].0.as_str(), asset.frames[k].key.as_str());
                let le2 = crate::text::str_le(asset.frames[k].key.as_str(), files[i].0.as_str());
                if le1 && le2 {
                    proof {
                        crate::text::lemma_key_le_antisymmetric(
                            files@[i as int].0@,
                            asset.frames@[k as int].key@,
                        );
                        assert(m.frames[i as int].key == m.frames[k as int].key);
                        assert(has_duplicate_keys(m.frames));
                    }
                    return Err(RpackAtlasAssetError::DuplicateFrameKey(asset.frames[k].key.clone()));
                }
                proof {
                    if files@[i as int].0@ == asset.frames@[k as int].key@ {
                        crate::text::lemma_key_le_reflexive(files@[i as int].0@);
                        assert(false);
                    }
                }
                i = i + 1;
            }
            atlas.push(asset.frames[k].frame);
            files.push((asset.frames[k].key.clone(), k));
            k = k + 1;
        }
        let result = RpackAtlasAsset { image, atlas, files };
        proof {
            assert forall|i: int, j: int| 0 <= i < j < n implies (#[trigger] m.frames[i]).key != (
            #[trigger] m.frames[j]).key by {
                assert(files@[i].0@ == asset.frames@[i].key@);
                assert(files@[j].0@ == asset.frames@[j].key@);
            }
            assert(!has_duplicate_keys(m.frames));
            assert(forall|i: int|
                0 <= i < n ==> result.atlas@[i] == (#[trigger] m.frames[i]).frame);
        }
        Ok(result)
    }
}

/// The collection of loaded atlases, in load order.
#[derive(Clone, Debug)]
pub struct RpackAtlases(pub Vec<RpackAtlasAsset>);

impl RpackAtlases {
    /// Some loaded atlas contains `key`.
    pub open spec fn spec_any_has_key(self, key: Seq<char>) -> bool {
        exists|i: int| 0 <= i < self.0@.len() && (#[trigger] self.0@[i]).spec_has_key(key)
    }

    /// Atlas `i` is the first loaded atlas that contains `key`.
    pub open spec fn spec_first_atlas(self, key: Seq<char>, i: int) -> bool {
        &&& 0 <= i < self.0@.len()
        &&& self.0@[i].spec_has_key(key)
        &&& forall|j: int| 0 <= j < i ==> !(#[trigger] self.0@[j]).spec_has_key(key)
    }
}

/// Access to drawables across all loaded atlases: the first atlas in load
/// order that knows the key answers.
pub trait RpackAssetHelper {
    /// Retrieves the atlas data for the given key from the first loaded atlas
    /// that contains it; `NoAtlas` when none is loaded, `WrongKey` when no
    /// loaded atlas contains the key.
    fn find_atlas_data_by_key(&self, key: &str) -> (r: Result<(TextureAtlas, ImageHandle),
        RpackAtlasError>);

    /// Creates a sprite reference by the same policy.
    fn try_make_sprite(&self, key: &str) -> (r: Result<Sprite, RpackAtlasError>);

    /// Creates a UI-node reference by the same policy.
    fn try_make_image_node(&self, key: &str) -> (r: Result<ImageNode, RpackAtlasError>);

    /// All keys of all loaded atlases, atlas by atlas in load order.
    fn atlas_data_keys(&self) -> (r: Vec<String>);
}

/// The keys of one atlas, in entry order.
pub open spec fn keys_of(a: RpackAtlasAsset) -> Seq<Seq<char>> {
    a.files@.map(|i: int, e: (String, usize)| e.0@)
}

/// The keys of the atlases, atlas by atlas in load order.
pub open spec fn all_keys(atlases: Seq<RpackAtlasAsset>) -> Seq<Seq<char>>
    decreases atlases.len(),
{
    if atlases.len() == 0 {
        Seq::<Seq<char>>::empty()
    } else {
        all_keys(atlases.drop_last()) + keys_of(atlases.last())
    }
}

impl RpackAssetHelper for RpackAtlases {
    fn find_atlas_data_by_key(&self, key: &str) -> (r: Result<(TextureAtlas, ImageHandle),
        RpackAtlasError>)
        ensures
            self.0@.len() == 0 ==> r == Err::<(TextureAtlas, ImageHandle), RpackAtlasError>(
                RpackAtlasError::NoAtlas,
            ),
            self.0@.len() > 0 && !self.spec_any_has_key(key@) ==> r == Err::<
                (TextureAtlas, ImageHandle),
                RpackAtlasError,
            >(RpackAtlasError::WrongKey),
            self.spec_any_has_key(key@) ==> r is Ok && exists|i: int|
                {
                    &&& self.spec_first_atlas(key@, i)
                    &&& (#[trigger] self.0@[i]).spec_first_entry(
                        key@,
                        r.unwrap().0.index as int,
                    )
                    &&& r.unwrap().0.layout@ == self.0@[i].atlas@
                    &&& r.unwrap().1 == self.0@[i].image
                },
    {
        if self.0.len() == 0 {
            return Err(RpackAtlasError::NoAtlas);
        }
        let n = self.0.len();
        let mut i: usize = 0;
        while i < n
            invariant
                i <= n,
                n == self.0@.len(),
                forall|j: int| 0 <= j < i ==> !(#[trigger] self.0@[j]).spec_has_key(key@),
            decreases n - i,
        {
            match self.0[i].get_atlas_data(key) {
                Ok(data) => {
                    proof {
                        assert(self.spec_first_atlas(key@, i as int));
                    }
                    return Ok(data);
                },
                Err(_) => {},
            }
            i = i + 1;
        }
        Err(RpackAtlasError::WrongKey)
    }

    fn try_make_sprite(&self, key: &str) -> (r: Result<Sprite, RpackAtlasError>)
        ensures
            self.0@.len() == 0 ==> r == Err::<Sprite, RpackAtlasError>(RpackAtlasError::NoAtlas),
            self.0@.len() > 0 && !self.spec_any_has_key(key@) ==> r == Err::<
                Sprite,
                RpackAtlasError,
            >(RpackAtlasError::WrongKey),
            self.spec_any_has_key(key@) ==> r is Ok && r.unwrap().texture_atlas is Some
                && exists|i: int|
                {
                    &&& self.spec_first_atlas(key@, i)
                    &&& (#[trigger] self.0@[i]).spec_first_entry(
                        key@,
                        r.unwrap().texture_atlas.unwrap().index as int,
                    )
                    &&& r.unwrap().texture_atlas.unwrap().layout@ == self.0@[i].atlas@
                    &&& r.unwrap().image == self.0@[i].image
                },
    {
        match self.find_atlas_data_by_key(key) {
            Ok((atlas, image)) => Ok(Sprite { image, texture_atlas: Some(atlas) }),
            Err(e) => Err(e),
        }
    }

    fn try_make_image_node(&self, key: &str) -> (r: Result<ImageNode, RpackAtlasError>)
        ensures
            self.0@.len() == 0 ==> r == Err::<ImageNode, RpackAtlasError>(RpackAtlasError::NoAtlas),
            self.0@.len() > 0 && !self.spec_any_has_key(key@) ==> r == Err::<
                ImageNode,
                RpackAtlasError,
            >(RpackAtlasError::WrongKey),
            self.spec_any_has_key(key@) ==> r is Ok && r.unwrap().texture_atlas is Some
                && exists|i: int|
                {
                    &&& self.spec_first_atlas(key@, i)
                    &&& (#[trigger] self.0@[i]).spec_first_entry(
                        key@,
                        r.unwrap().texture_atlas.unwrap().index as int,
                    )
                    &&& r.unwrap().texture_atlas.unwrap().layout@ == self.0@[i].atlas@
                    &&& r.unwrap().image == self.0@[i].image
                },
    {
        match self.find_atlas_data_by_key(key) {
            Ok((atlas, image)) => Ok(ImageNode { image, texture_atlas: Some(atlas) }),
            Err(e) => Err(e),
        }
    }

    fn atlas_data_keys(&self) -> (r: Vec<String>)
        ensures
            r@.map(|i: int, s: String| s@) == all_keys(self.0@),
    {
        let mut out: Vec<String> = Vec::new();
        let n = self.0.len();
        let mut i: usize = 0;
        let ghost views = |v: Seq<String>| v.map(|i: int, s: String| s@);
        proof {
            assert(self.0@.take(0) =~= Seq::<RpackAtlasAsset>::empty());
            assert(out@.map(|i: int, s: String| s@) =~= all_keys(self.0@.take(0)));
        }
        while i < n
            invariant
                i <= n,
                n == self.0@.len(),
                out@.map(|i2: int, s: String| s@) == all_keys(self.0@.take(i as int)),
            decreases n - i,
        {
            let m = self.0[i].files.len();
            let mut k: usize = 0;
            while k < m
                invariant
                    k <= m,
                    i < n,
                    n == self.0@.len(),
                    m == self.0@[i as int].files@.len(),
                    out@.map(|i2: int, s: String| s@) == all_keys(self.0@.take(i as int)) + keys_of(
                        self.0@[i as int],
                    ).take(k as int),
                decreases m - k,
            {
                let ghost out0 = out@;
                out.push(self.0[i].files[k].0.clone());
                proof {
                    let ks = keys_of(self.0@[i as int]);
                    assert(ks[k as int] == self.0@[i as int].files@[k as int].0@);
                    assert(ks.take(k + 1) =~= ks.take(k as int).push(ks[k as int]));
                    assert(out@ == out0.push(out@[out@.len() - 1]));
                    assert(out@[out@.len() - 1]@ == ks[k as int]);
                    assert(out@.map(|i2: int, s: String| s@) =~= out0.map(
                        |i2: int, s: String| s@,
                    ).push(ks[k as int]));
                    assert(out@.map(|i2: int, s: String| s@) =~= all_keys(
                        self.0@.take(i as int),
                    ) + ks.take(k + 1));
                }
                k = k + 1;
            }
            proof {
                let ks = keys_of(self.0@[i as int]);
                assert(ks.take(m as int) =~= ks);
                assert(self.0@.take(i + 1).drop_last() =~= self.0@.take(i as int));
                assert(self.0@.take(i + 1).last() == self.0@[i as int]);
                assert(all_keys(self.0@.take(i + 1)) == all_keys(self.0@.take(i as int)) + ks);
            }
            i = i + 1;
        }
        proof {
            assert(self.0@.take(n as int) =~= self.0@);
        }
        out
    }
}

/// Serializing an asset and parsing the document back yields the same model:
/// in particular the same frame keys, so a reloaded atlas resolves exactly
/// the keys of the original (round trip). The hypothesis only asks that the
/// asset's control characters reflect their own code points, which holds of
/// every real string.
pub proof fn lemma_serialize_then_load_round_trip(a: AtlasAsset)
    requires
        crate::wire::atlas_reflects(a.model()),
    ensures
        parse_atlas_doc(crate::wire::emit_atlas(a.model())) == Some(a.model()),
{
    crate::wire::lemma_parse_atlas_doc_of_emit(a.model());
}

} // verus!
