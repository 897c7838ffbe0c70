//! Archived bitmaps: frozen bitmaps inside `rkyv` archives, read in place.
use crate::bitmap::RoaringBitmap;
use crate::format::frozen_bytes;
use crate::format::parse;
use crate::frozen::FrozenRoaringBitmapView;
use crate::model::containers_empty;
use crate::model::containers_first_is;
use crate::model::containers_last_is;
use crate::rkyv_calls::access_vec;
use crate::rkyv_calls::aligned_bytes;
use crate::rkyv_calls::archive_vec;
use crate::rkyv_calls::archived_bytes;
use crate::rkyv_calls::law_vec_archive;
use crate::rkyv_calls::read_vec_archive;
use crate::rkyv_calls::vec_archive;
use crate::rkyv_calls::vec_as_slice;
use crate::rkyv_calls::vec_fits;
use crate::rkyv_calls::OFFSET_LIMIT;
use crate::rkyv_calls::ROOT_SIZE;
use crate::text::decimal;
use crate::text::push_decimal;
use rkyv::util::AlignedVec;
use rkyv::vec::ArchivedVec;
use vstd::prelude::*;

verus! {

/// The bytes of an archived bitmap are not a frozen bitmap.
#[derive(Clone, Copy, Debug, PartialEq, Eq, Structural)]
pub struct InvalidFrozenBitmap;

impl InvalidFrozenBitmap {
    /// What went wrong, as text.
    pub fn message(&self) -> (r: String)
        ensures
            r@ == "invalid frozen roaring bitmap"@,
    {
        "invalid frozen roaring bitmap".to_owned()
    }
}

/// Why a buffer cannot be accessed.
#[derive(Clone, Copy, Debug, PartialEq, Eq, Structural)]
pub enum AccessError {
    /// It is not an archive of the kind that is asked for.
    MalformedArchive,
    /// The archive holds bytes that are not a frozen bitmap.
    InvalidFrozenBitmap,
}

/// What was to be archived takes up more bytes than an archive has room for.
#[derive(Clone, Copy, Debug, PartialEq, Eq, Structural)]
pub struct TooLarge;

/// Whether a look-up of `v` in a byte string comes out right. It does in none that is not a
/// frozen bitmap.
pub open spec fn bytes_find(s: Seq<u8>, v: u32) -> bool {
    match parse(s) {
        Some(z) => z.finds(v),
        None => false,
    }
}

/// Whether a byte string is an empty frozen bitmap, or none at all.
pub open spec fn bytes_empty(s: Seq<u8>) -> bool {
    match parse(s) {
        Some(z) => containers_empty(z.containers()),
        None => true,
    }
}

/// How many integers a byte string says that it holds. One that is not a frozen bitmap holds
/// none.
pub open spec fn bytes_total(s: Seq<u8>) -> int {
    match parse(s) {
        Some(z) => z.total(z.count_containers() as int),
        None => 0,
    }
}

/// Whether `r` is what stands first in a byte string. In one that is not a frozen bitmap
/// nothing does.
pub open spec fn bytes_first_is(s: Seq<u8>, r: Option<u32>) -> bool {
    match parse(s) {
        Some(z) => containers_first_is(z.containers(), r),
        None => r is None,
    }
}

/// Whether `r` is what stands last in a byte string. In one that is not a frozen bitmap
/// nothing does.
pub open spec fn bytes_last_is(s: Seq<u8>, r: Option<u32>) -> bool {
    match parse(s) {
        Some(z) => containers_last_is(z.containers(), r),
        None => r is None,
    }
}

/// Whether two byte strings are the same.
fn same_bytes(a: &[u8], b: &[u8]) -> (r: bool)
    ensures
        r == (a@ == b@),
{
    if a.len() != b.len() {
        return false;
    }
    let mut i: usize = 0;
    while i < a.len()
        invariant
            i <= a.len(),
            a.len() == b.len(),
            forall|j: int| 0 <= j < i ==> a@[j] == b@[j],
        decreases a.len() - i,
    {
        if a[i] != b[i] {
            return false;
        }
        i = i + 1;
    }
    assert(a@ =~= b@);
    true
}

impl RoaringBitmap {
    /// The frozen form of the bitmap.
    pub fn to_frozen_bytes(&self) -> (r: Vec<u8>)
        requires
            self.freezable(),
            frozen_bytes(self.model()).len() <= usize::MAX,
        ensures
            r@ == frozen_bytes(self.model()),
    {
        let size: usize = self.frozen_size_in_bytes();
        let mut buf: Vec<u8> = vec![0u8; size];
        self.frozen_serialize_into(buf.as_mut_slice());
        assert(buf@ =~= frozen_bytes(self.model()));
        buf
    }

    /// The archive of the bitmap. There is none of a bitmap whose frozen form does not fit into
    /// one.
    pub fn to_bytes(&self) -> (r: Result<AlignedVec<16>, TooLarge>)
        requires
            self.freezable(),
        ensures
            match r {
                Ok(bytes) => {
                    &&& vec_fits(frozen_bytes(self.model()).len() as int)
                    &&& aligned_bytes(bytes) == vec_archive(frozen_bytes(self.model()))
                    &&& read_vec_archive(aligned_bytes(bytes)) == Some(frozen_bytes(self.model()))
                },
                Err(_) => !vec_fits(frozen_bytes(self.model()).len() as int),
            },
    {
        let size: u64 = self.frozen_len();
        let root: u64 = (size + 3) / 4 * 4;
        if root > OFFSET_LIMIT || root + ROOT_SIZE + 15 > isize::MAX as u64 {
            return Err(TooLarge);
        }
        proof {
            law_vec_archive(frozen_bytes(self.model()));
        }
        let frozen: Vec<u8> = self.to_frozen_bytes();
        match archive_vec(&frozen) {
            Ok(bytes) => Ok(bytes),
            Err(_) => Err(TooLarge),
        }
    }
}

/// An archived bitmap.
#[derive(Clone, Copy)]
pub struct ArchivedRoaringBitmap<'a>(&'a [u8]);

/// The view of an archived bitmap is its bytes.
impl<'a> View for ArchivedRoaringBitmap<'a> {
    type V = Seq<u8>;

    closed spec fn view(&self) -> Seq<u8> {
        self.0@
    }
}

impl<'a> ArchivedRoaringBitmap<'a> {
    /// The bitmap in a buffer that holds the archive of one.
    pub fn access(bytes: &'a AlignedVec<16>) -> (r: Result<Self, AccessError>)
        ensures
            match read_vec_archive(aligned_bytes(*bytes)) {
                None => r == Err::<Self, AccessError>(AccessError::MalformedArchive),
                Some(s) => if parse(s) is Some {
                    r matches Ok(archived) && archived@ == s
                } else {
                    r == Err::<Self, AccessError>(AccessError::InvalidFrozenBitmap)
                },
            },
    {
        match access_vec(bytes) {
            Ok(vec) => {
                let archived = ArchivedRoaringBitmap::from_archived_vec(vec);
                match archived.verify() {
                    Ok(()) => Ok(archived),
                    Err(_) => Err(AccessError::InvalidFrozenBitmap),
                }
            },
            Err(_) => Err(AccessError::MalformedArchive),
        }
    }

    /// An archived vector taken as a bitmap, without a check of its bytes.
    pub fn from_archived_vec(vec: &'a ArchivedVec<u8>) -> (r: Self)
        ensures
            r@ == archived_bytes(*vec),
    {
        ArchivedRoaringBitmap(vec_as_slice(vec))
    }

    /// Bytes taken as a bitmap, without a check of them.
    pub fn from_bytes(bytes: &'a [u8]) -> (r: Self)
        ensures
            r@ == bytes@,
    {
        ArchivedRoaringBitmap(bytes)
    }

    /// Checks that the bytes are a frozen bitmap.
    pub fn verify(&self) -> (r: Result<(), InvalidFrozenBitmap>)
        ensures
            r is Ok <==> parse(self@) is Some,
    {
        match self.as_view() {
            Some(_) => Ok(()),
            None => Err(InvalidFrozenBitmap),
        }
    }

    /// Views the bytes as a frozen bitmap. There is a view exactly where they are one.
    #[must_use]
    pub fn as_view(&self) -> (r: Option<FrozenRoaringBitmapView<'a>>)
        ensures
            match parse(self@) {
                Some(z) => r matches Some(view) && view@ == z && z.wf(),
                None => r is None,
            },
    {
        FrozenRoaringBitmapView::new_unaligned(self.0)
    }

    /// Whether the bitmap contains `value`.
    #[must_use]
    pub fn contains(&self, value: u32) -> (r: bool)
        ensures
            r == bytes_find(self@, value),
    {
        match self.as_view() {
            Some(view) => view.contains(value),
            None => false,
        }
    }

    /// Whether the bitmap is empty.
    #[must_use]
    pub fn is_empty(&self) -> (r: bool)
        ensures
            r == bytes_empty(self@),
    {
        match self.as_view() {
            Some(view) => view.is_empty(),
            None => true,
        }
    }

    /// The number of integers in the bitmap.
    #[must_use]
    pub fn len(&self) -> (r: u64)
        ensures
            r == bytes_total(self@),
    {
        match self.as_view() {
            Some(view) => view.len(),
            None => 0,
        }
    }

    /// The minimum of the bitmap.
    #[must_use]
    pub fn min(&self) -> (r: Option<u32>)
        ensures
            bytes_first_is(self@, r),
    {
        match self.as_view() {
            Some(view) => view.min(),
            None => None,
        }
    }

    /// The maximum of the bitmap.
    #[must_use]
    pub fn max(&self) -> (r: Option<u32>)
        ensures
            bytes_last_is(self@, r),
    {
        match self.as_view() {
            Some(view) => view.max(),
            None => None,
        }
    }

    /// The bitmap as an owned one. There is one exactly where the bytes are a frozen bitmap.
    pub fn deserialize(&self) -> (r: Result<RoaringBitmap, InvalidFrozenBitmap>)
        ensures
            match parse(self@) {
                Some(z) => r matches Ok(b) && b.model() == z.containers() && b.freezable() && (
                z.valid() ==> b.wf()),
                None => r is Err,
            },
    {
        match self.as_view() {
            Some(view) => Ok(view.to_roaring_bitmap()),
            None => Err(InvalidFrozenBitmap),
        }
    }

    /// The number of bytes, as text.
    pub fn debug_text(&self) -> (r: String)
        ensures
            r@ == "ArchivedRoaringBitmap(<"@ + decimal(self@.len()) + " bytes>)"@,
    {
        let mut r: String = "ArchivedRoaringBitmap(<".to_owned();
        push_decimal(&mut r, self.0.len() as u64);
        r.append(" bytes>)");
        r
    }
}

/// Two archived bitmaps are equal where their bytes are.
impl<'a> PartialEq for ArchivedRoaringBitmap<'a> {
    fn eq(&self, other: &Self) -> (r: bool) {
        same_bytes(self.0, other.0)
    }
}

impl<'a> vstd::std_specs::cmp::PartialEqSpecImpl for ArchivedRoaringBitmap<'a> {
    open spec fn obeys_eq_spec() -> bool {
        true
    }

    open spec fn eq_spec(&self, other: &Self) -> bool {
        self@ == other@
    }
}

impl<'a> Eq for ArchivedRoaringBitmap<'a> {

}

} // verus!
