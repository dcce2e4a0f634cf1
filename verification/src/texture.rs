//! Textures: the store of loaded textures with its cache by path, and the
//! pixel conversions done before an upload.
use vstd::prelude::*;

use crate::batch::TextureHandle;
use crate::table::KeyTable;

verus! {

/// The loaded textures, each at the position its handle names, with the
/// handle of each file path already loaded. Position 0 holds the default
/// texture, used by sprites without one.
pub struct TextureStore<E> {
    entries: Vec<E>,
    path_cache: KeyTable<String, TextureHandle>,
}

impl<E> TextureStore<E> {
    /// The textures, by handle.
    pub closed spec fn entries(&self) -> Seq<E> {
        self.entries@
    }

    /// The handle of each loaded path.
    pub closed spec fn cache(&self) -> Map<Seq<char>, TextureHandle> {
        self.path_cache.view()
    }

    /// There is a default texture, and every cached handle names a texture.
    pub closed spec fn wf(&self) -> bool {
        &&& self.path_cache.wf()
        &&& self.entries@.len() >= 1
        &&& forall|p: Seq<char>| #[trigger] self.path_cache.view().contains_key(p) ==> self.path_cache.view()[p].0
            < self.entries@.len()
    }

    /// A store holding only the default texture.
    pub fn new(default_entry: E) -> (r: Self)
        ensures
            r.wf(),
            r.entries() == seq![default_entry],
            r.cache() == Map::<Seq<char>, TextureHandle>::empty(),
    {
        let mut entries: Vec<E> = Vec::new();
        entries.push(default_entry);
        let r = TextureStore { entries, path_cache: KeyTable::new() };
        assert(r.entries@ =~= seq![default_entry]);
        r
    }

    /// The handle of the default texture.
    pub fn default_handle(&self) -> (r: TextureHandle)
        ensures
            r.0 == 0,
    {
        TextureHandle(0)
    }

    /// The texture of a handle. The handle must come from this store.
    pub fn get(&self, handle: TextureHandle) -> (r: &E)
        requires
            handle.0 < self.entries().len(),
        ensures
            *r == self.entries()[handle.0 as int],
    {
        &self.entries[handle.0]
    }

    /// The handle of `path`, if it was loaded already.
    pub fn cached(&self, path: &String) -> (r: Option<TextureHandle>)
        requires
            self.wf(),
        ensures
            r == if self.cache().contains_key(path@) {
                Some(self.cache()[path@])
            } else {
                None::<TextureHandle>
            },
            r matches Some(h) ==> h.0 < self.entries().len(),
    {
        match self.path_cache.get(path) {
            Some(h) => Some(*h),
            None => None,
        }
    }

    /// Adds the texture loaded from `path`; its handle is its position and
    /// is remembered for the path.
    pub fn add(&mut self, path: String, entry: E) -> (r: TextureHandle)
        requires
            old(self).wf(),
        ensures
            final(self).wf(),
            r.0 == old(self).entries().len(),
            final(self).entries() == old(self).entries().push(entry),
            final(self).cache() == old(self).cache().insert(path@, r),
    {
        let handle = TextureHandle(self.entries.len());
        self.entries.push(entry);
        self.path_cache.insert(path, handle);
        handle
    }

    /// Replaces the texture of a handle, keeping the handle.
    pub fn reload_entry(&mut self, handle: TextureHandle, entry: E)
        requires
            old(self).wf(),
            handle.0 < old(self).entries().len(),
        ensures
            final(self).wf(),
            final(self).entries() == old(self).entries().update(handle.0 as int, entry),
            final(self).cache() == old(self).cache(),
    {
        self.entries.set(handle.0, entry);
    }

    /// Number of textures, the default one included.
    pub fn len(&self) -> (r: usize)
        ensures
            r == self.entries().len(),
    {
        self.entries.len()
    }
}

/// Loading the same path twice gives the same handle: once a path is added
/// with handle `h`, adding textures for other paths, reloading textures or
/// adding more textures keeps `h` as that path's cached handle, and `h`
/// keeps naming a texture of the store.
pub proof fn law_same_path_same_handle<E>(
    cache: Map<Seq<char>, TextureHandle>,
    entries: Seq<E>,
    path: Seq<char>,
    entry: E,
    other: Seq<char>,
    other_entry: E,
    reloaded: E,
)
    ensures
        ({
            let h = TextureHandle(entries.len() as usize);
            let cache1 = cache.insert(path, h);
            let entries1 = entries.push(entry);
            let h2 = TextureHandle(entries1.len() as usize);
            let cache2 = cache1.insert(other, h2);
            let entries2 = entries1.push(other_entry).update(h.0 as int, reloaded);
            &&& cache1[path] == h
            &&& other != path ==> cache2[path] == h
            &&& h.0 < entries2.len()
        }),
{
}

/// Pixels of an RGB image with an opaque alpha byte added after each
/// group of three; a last group of fewer than three bytes is copied as it
/// is and also followed by an alpha byte.
pub open spec fn rgba_of_rgb(rgb: Seq<u8>) -> Seq<u8>
    decreases rgb.len(),
{
    if rgb.len() == 0 {
        Seq::empty()
    } else if rgb.len() <= 3 {
        rgb.push(255u8)
    } else {
        rgb.take(3).push(255u8) + rgba_of_rgb(rgb.skip(3))
    }
}

/// Converts RGB pixel bytes to RGBA, every pixel fully opaque.
pub fn rgb_to_rgba(rgb: &Vec<u8>) -> (r: Vec<u8>)
    ensures
        r@ == rgba_of_rgb(rgb@),
{
    let mut out: Vec<u8> = Vec::new();
    let mut i: usize = 0;
    assert(rgb@.skip(0) =~= rgb@);
    assert(out@ + rgba_of_rgb(rgb@) =~= rgba_of_rgb(rgb@));
    while i < rgb.len()
        invariant
            i <= rgb@.len(),
            out@ + rgba_of_rgb(rgb@.skip(i as int)) == rgba_of_rgb(rgb@),
        decreases rgb@.len() - i,
    {
        let ghost rest = rgb@.skip(i as int);
        let end = if rgb.len() - i < 3 {
            rgb.len()
        } else {
            i + 3
        };
        let ghost before = out@;
        let mut j = i;
        while j < end
            invariant
                i <= j <= end <= rgb@.len(),
                out@ == before + rgb@.subrange(i as int, j as int),
            decreases end - j,
        {
            out.push(rgb[j]);
            j = j + 1;
            assert(out@ =~= before + rgb@.subrange(i as int, j as int));
        }
        out.push(255u8);
        proof {
            if rest.len() <= 3 {
                assert(rgb@.subrange(i as int, end as int) =~= rest);
                assert(rgb@.skip(end as int) =~= Seq::<u8>::empty());
            } else {
                assert(rgb@.subrange(i as int, end as int) =~= rest.take(3));
                assert(rest.skip(3) =~= rgb@.skip(end as int));
            }
            assert(out@ + rgba_of_rgb(rgb@.skip(end as int)) =~= before + rgba_of_rgb(rest));
        }
        i = end;
    }
    assert(out@ + rgba_of_rgb(rgb@.skip(i as int)) == out@ + Seq::<u8>::empty());
    assert(out@ + Seq::<u8>::empty() =~= out@);
    out
}

// ── Decoding image files ──────────────────────────────────────────────

#[verifier::external_type_specification]
#[verifier::external_body]
pub struct ExImageError(image::ImageError);

/// The size and 8-bit RGBA pixels (row-major, four bytes per pixel) that
/// the `image` crate decodes from the bytes of an image file stored at
/// `path`, in the format its extension names, or `None` when it cannot.
pub uninterp spec fn decoded_rgba8(path: Seq<char>, bytes: Seq<u8>) -> Option<(u32, u32, Seq<u8>)>;

/// Decodes an image file held in memory the way `image::open` decodes a
/// file: `ImageFormat::from_path` picks the format from the path's
/// extension (an unknown or missing one is an error), then
/// `image::load_from_memory_with_format` decodes the bytes in that format,
/// and `to_rgba8` converts the picture to 8-bit RGBA. Claimed: the result
/// is `decoded_rgba8` of the path and the bytes, and the pixel buffer
/// holds at least four bytes per pixel (an `ImageBuffer` is never made
/// with fewer).
#[verifier::external_body]
fn load_rgba8(path: &str, bytes: &[u8]) -> (r: Result<(u32, u32, Vec<u8>), image::ImageError>)
    ensures
        match r {
            Ok((w, h, px)) => decoded_rgba8(path@, bytes@) == Some((w, h, px@)) && px@.len() >= w * h * 4,
            Err(_) => decoded_rgba8(path@, bytes@) is None,
        },
{
    let format = image::ImageFormat::from_path(path)?;
    let img = image::load_from_memory_with_format(bytes, format)?;
    let rgba = img.to_rgba8();
    let (w, h) = rgba.dimensions();
    Ok((w, h, rgba.into_raw()))
}

/// The text of an `image` error, as its `Display` impl writes it. Nothing
/// is claimed of the text.
#[verifier::external_body]
fn image_error_text(e: &image::ImageError) -> String {
    format!("{}", e)
}

/// A decoded texture: its size and its 8-bit RGBA pixels.
pub struct DecodedTexture {
    pub width: u32,
    pub height: u32,
    pub pixels: Vec<u8>,
}

/// Why a texture could not be loaded.
pub enum TextureError {
    /// The file is not an image the decoder reads in the format its
    /// extension names; the text says why.
    Decode(String),
}

/// Decodes the bytes of the image file at `path`, in the format its
/// extension names, into RGBA pixels ready for upload.
pub fn decode_texture(path: &str, bytes: &Vec<u8>) -> (r: Result<DecodedTexture, TextureError>)
    ensures
        match r {
            Ok(t) => {
                &&& decoded_rgba8(path@, bytes@) == Some((t.width, t.height, t.pixels@))
                &&& t.pixels@.len() >= t.width * t.height * 4
            },
            Err(_) => decoded_rgba8(path@, bytes@) is None,
        },
{
    match load_rgba8(path, bytes.as_slice()) {
        Ok((width, height, pixels)) => Ok(DecodedTexture { width, height, pixels }),
        Err(e) => Err(TextureError::Decode(image_error_text(&e))),
    }
}

} // verus!
