//! Assets: byte blobs with an optional MIME hint and a UTF-8 view, and an
//! in-memory asset store keyed by normalized asset paths.

use vstd::prelude::*;
use vstd::string::StringSliceAdditionalSpecFns;
use vstd::utf8::{decode_utf8, valid_utf8};

use crate::urls::{nonempty_segments, spec_asset_from};

verus! {

/// Errors raised when obtaining or interpreting an asset.
#[derive(Debug, PartialEq, Eq, Structural, Clone, Copy)]
pub enum AssetError {
    /// The desired asset could not be found.
    NotFound,
    /// Corrupted data was found. Reserved; unused by the request path.
    Corrupted,
    /// An error occurred within a provider.
    ProviderError,
    /// The asset's data cannot be interpreted in the desired manner.
    CannotInterpret,
}

/// Relies on std::str::from_utf8: it succeeds exactly on valid UTF-8 input
/// and returns the string reading those bytes.
#[verifier::external_body]
pub(crate) fn str_from_utf8(b: &[u8]) -> (r: Option<&str>)
    ensures
        r is Some <==> valid_utf8(b@),
        match r {
            Some(s) => s@ == decode_utf8(b@) && s.spec_bytes() == b@,
            None => true,
        },
{
    std::str::from_utf8(b).ok()
}

/// A file found in a page: a byte sequence with an optional MIME hint and a
/// UTF-8 view.
pub trait Asset: Sized {
    /// The bytes this asset contains.
    spec fn data(&self) -> Seq<u8>;

    /// The MIME hint this asset carries, if any.
    spec fn mime_hint(&self) -> Option<Seq<char>>;

    /// The MIME type of this asset, where one was determined.
    fn mime_type(&self) -> (r: Option<&str>)
        ensures
            r.deep_view() == self.mime_hint(),
    ;

    /// The content of the asset, as bytes.
    fn bytes(&self) -> (r: &[u8])
        ensures
            r@ == self.data(),
    ;

    /// The content of the asset, taken by value.
    fn into_bytes(self) -> (r: Vec<u8>)
        ensures
            r@ == self.data(),
    ;

    /// The content of the asset interpreted as UTF-8; fails exactly when the
    /// bytes are not valid UTF-8.
    fn body(&self) -> (r: Result<&str, AssetError>)
        ensures
            match r {
                Ok(s) => valid_utf8(self.data()) && s@ == decode_utf8(self.data()),
                Err(e) => e is CannotInterpret && !valid_utf8(self.data()),
            },
    {
        match str_from_utf8(self.bytes()) {
            Some(s) => Ok(s),
            None => Err(AssetError::CannotInterpret),
        }
    }
}

/// An asset stored in memory.
pub struct MemoryAsset {
    contents: Vec<u8>,
}

impl View for MemoryAsset {
    type V = Seq<u8>;

    closed spec fn view(&self) -> Seq<u8> {
        self.contents@
    }
}

impl Clone for MemoryAsset {
    fn clone(&self) -> (r: MemoryAsset)
        ensures
            r@ == self@,
    {
        MemoryAsset { contents: self.contents.clone() }
    }
}

impl MemoryAsset {
    /// An asset with no content.
    pub fn empty() -> (r: MemoryAsset)
        ensures
            r@ == Seq::<u8>::empty(),
    {
        let contents: Vec<u8> = Vec::new();
        proof {
            assert(contents@ =~= Seq::<u8>::empty());
        }
        MemoryAsset { contents }
    }

    /// An asset holding the given bytes.
    pub fn new_from_bytes(contents: Vec<u8>) -> (r: MemoryAsset)
        ensures
            r@ == contents@,
    {
        MemoryAsset { contents }
    }
}

impl Asset for MemoryAsset {
    open spec fn data(&self) -> Seq<u8> {
        self@
    }

    /// Memory assets carry no MIME hint.
    open spec fn mime_hint(&self) -> Option<Seq<char>> {
        None
    }

    fn mime_type(&self) -> (r: Option<&str>)
        ensures
            r.deep_view() == self.mime_hint(),
    {
        None
    }

    fn bytes(&self) -> (r: &[u8])
        ensures
            r@ == self.data(),
    {
        self.contents.as_slice()
    }

    fn into_bytes(self) -> (r: Vec<u8>)
        ensures
            r@ == self.data(),
    {
        self.contents
    }
}

impl From<Vec<u8>> for MemoryAsset {
    fn from(value: Vec<u8>) -> (r: MemoryAsset) {
        MemoryAsset { contents: value }
    }
}

impl vstd::std_specs::convert::FromSpecImpl<Vec<u8>> for MemoryAsset {
    open spec fn obeys_from_spec() -> bool {
        true
    }

    closed spec fn from_spec(v: Vec<u8>) -> MemoryAsset {
        MemoryAsset { contents: v }
    }
}

/// What `From<Vec<u8>>` constructs: an asset holding exactly the given
/// bytes.
pub proof fn lemma_memory_asset_from_vec(v: Vec<u8>)
    ensures
        (#[trigger] <MemoryAsset as vstd::std_specs::convert::FromSpec<Vec<u8>>>::from_spec(v))@
            == v@,
{
}

impl From<String> for MemoryAsset {
    fn from(value: String) -> (r: MemoryAsset) {
        MemoryAsset { contents: value.as_str().as_bytes_vec() }
    }
}

impl vstd::std_specs::convert::FromSpecImpl<String> for MemoryAsset {
    /// The UTF-8 encoding of a string cannot be written down as a plain
    /// value, so `From<String>` carries no contract; verified callers use
    /// `MemoryAsset::from_str` instead.
    open spec fn obeys_from_spec() -> bool {
        false
    }

    closed spec fn from_spec(v: String) -> MemoryAsset {
        arbitrary()
    }
}

impl From<&str> for MemoryAsset {
    fn from(value: &str) -> (r: MemoryAsset) {
        MemoryAsset { contents: value.as_bytes_vec() }
    }
}

impl vstd::std_specs::convert::FromSpecImpl<&str> for MemoryAsset {
    /// As for `From<String>`: verified callers use `MemoryAsset::from_str`.
    open spec fn obeys_from_spec() -> bool {
        false
    }

    closed spec fn from_spec(v: &str) -> MemoryAsset {
        arbitrary()
    }
}

impl MemoryAsset {
    /// An asset holding the UTF-8 encoding of the given text.
    pub fn from_str(value: &str) -> (r: MemoryAsset)
        ensures
            r@ == vstd::utf8::encode_utf8(value@),
    {
        MemoryAsset { contents: value.as_bytes_vec() }
    }
}

/// A borrowed view of another asset.
pub struct AssetRef<'a, A: Asset> {
    asset: &'a A,
}

impl<'a, A: Asset> AssetRef<'a, A> {
    pub fn new(asset: &'a A) -> (r: AssetRef<'a, A>)
        ensures
            r.data() == asset.data(),
            r.mime_hint() == asset.mime_hint(),
    {
        AssetRef { asset }
    }
}

impl<'a, A: Asset> Asset for AssetRef<'a, A> {
    closed spec fn data(&self) -> Seq<u8> {
        self.asset.data()
    }

    closed spec fn mime_hint(&self) -> Option<Seq<char>> {
        self.asset.mime_hint()
    }

    fn mime_type(&self) -> (r: Option<&str>)
        ensures
            r.deep_view() == self.mime_hint(),
    {
        self.asset.mime_type()
    }

    fn bytes(&self) -> (r: &[u8])
        ensures
            r@ == self.data(),
    {
        self.asset.bytes()
    }

    fn into_bytes(self) -> (r: Vec<u8>)
        ensures
            r@ == self.data(),
    {
        vstd::slice::slice_to_vec(self.asset.bytes())
    }
}

/// The normalized form of an asset path: `/` followed by its non-empty
/// segments. Empty segments from doubled or trailing slashes are dropped.
pub open spec fn norm_path(p: Seq<char>) -> Seq<char> {
    spec_asset_from(nonempty_segments(p))
}

/// Normalizes an asset path.
pub fn normalize_path(p: &String) -> (r: String)
    ensures
        r@ == norm_path(p@),
{
    let parts = crate::strutil::split_char(p.as_str(), '/');
    let segs = crate::urls::filter_nonempty(&parts);
    crate::urls::asset_from_segments(&segs)
}

} // verus!
