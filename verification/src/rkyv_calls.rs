//! The calls into `rkyv`, and what the rest of the library relies on of them.
use crate::bytes::lemma_u32_round_trip;
use crate::bytes::u32_at;
use crate::bytes::u32_bytes;
use crate::layout::place_map;
use crate::layout::NUMBER_LIMIT;
use rkyv::collections::btree_map::ArchivedBTreeMap;
use rkyv::primitive::ArchivedU32;
use rkyv::util::AlignedVec;
use rkyv::vec::ArchivedVec;
use std::collections::BTreeMap;
use vstd::prelude::*;

verus! {

/// `rkyv`'s archived vector.
#[verifier::external_type_specification]
#[verifier::external_body]
#[verifier::reject_recursive_types(T)]
pub struct ExArchivedVec<T>(ArchivedVec<T>);

/// `rkyv`'s archived B-tree map.
#[verifier::external_type_specification]
#[verifier::external_body]
#[verifier::reject_recursive_types(K)]
#[verifier::reject_recursive_types(V)]
pub struct ExArchivedBTreeMap<K, V, const E: usize>(ArchivedBTreeMap<K, V, E>);

/// `rkyv`'s archived 32-bit integer.
#[verifier::external_type_specification]
#[verifier::external_body]
pub struct ExArchivedU32(ArchivedU32);

/// `rkyv`'s buffer of aligned bytes.
#[verifier::external_type_specification]
#[verifier::external_body]
pub struct ExAlignedVec<const ALIGNMENT: usize>(AlignedVec<ALIGNMENT>);

/// The error type of `rkyv`.
#[verifier::external_type_specification]
#[verifier::external_body]
pub struct ExRancorError(rkyv::rancor::Error);

/// An archived map from 32-bit integers to byte strings.
pub type ArchivedByteMap = ArchivedBTreeMap<ArchivedU32, ArchivedVec<u8>, 5>;

/// How far `rkyv` points back at most. Its offsets are signed 32-bit integers.
pub const OFFSET_LIMIT: u64 = 0x8000_0000;

/// What the end of an archive takes up: an offset and a length.
pub const ROOT_SIZE: u64 = 8;

/// The bytes of an archived vector.
pub uninterp spec fn archived_bytes(v: ArchivedVec<u8>) -> Seq<u8>;

/// The entries of an archived map, in the order in which its nodes hold them.
pub uninterp spec fn archived_entries(m: ArchivedByteMap) -> Seq<(u32, Seq<u8>)>;

/// The bytes that a look-up of a key in an archived map ends at, or nothing where it ends at
/// none. In a map whose keys do not ascend it depends on how the nodes are laid out.
pub uninterp spec fn map_lookup(m: ArchivedByteMap, key: u32) -> Option<Seq<u8>>;

/// The bytes of a buffer.
pub uninterp spec fn aligned_bytes(v: AlignedVec<16>) -> Seq<u8>;

/// `n` zero bytes.
pub open spec fn zeros(n: nat) -> Seq<u8> {
    Seq::new(n, |i: int| 0u8)
}

/// The archive of a byte string: its bytes, zeros up to a multiple of four, the distance back
/// to the bytes as a negative 32-bit integer, and the number of bytes.
pub open spec fn vec_archive(s: Seq<u8>) -> Seq<u8> {
    let root = (s.len() + 3) / 4 * 4;
    s + zeros((root - s.len()) as nat) + u32_bytes(
        (0x1_0000_0000 - root) % 0x1_0000_0000,
    ) + u32_bytes(s.len() as int)
}

/// The byte string in an archive, or nothing where the archive is malformed: it is too short,
/// its end is not aligned, or the bytes that the end points to do not lie before it.
pub open spec fn read_vec_archive(bytes: Seq<u8>) -> Option<Seq<u8>> {
    let root = bytes.len() - ROOT_SIZE;
    let offset = u32_at(bytes, root);
    let start = root + if offset < OFFSET_LIMIT {
        offset
    } else {
        offset - 0x1_0000_0000
    };
    let n = u32_at(bytes, root + 4);
    if root >= 0 && root % 4 == 0 && start >= 0 && start + n <= root {
        Some(bytes.subrange(start, start + n))
    } else {
        None
    }
}

/// The archive of a map of byte strings.
pub uninterp spec fn map_archive(m: Map<u32, Seq<u8>>) -> Seq<u8>;

/// The entries of the map in an archive, or nothing where the archive is malformed.
pub uninterp spec fn read_map_archive(bytes: Seq<u8>) -> Option<Seq<(u32, Seq<u8>)>>;

/// Whether the keys go up from each entry to the next.
pub open spec fn keys_ascend(es: Seq<(u32, Seq<u8>)>) -> bool {
    forall|i: int, j: int| 0 <= i < j < es.len() ==> es[i].0 < es[j].0
}

/// Whether one of the entries has the key.
pub open spec fn has_key(es: Seq<(u32, Seq<u8>)>, key: u32) -> bool {
    exists|i: int| 0 <= i < es.len() && (#[trigger] es[i]).0 == key
}

/// Whether the entries are those of the map, with ascending keys.
pub open spec fn lists_map(es: Seq<(u32, Seq<u8>)>, m: Map<u32, Seq<u8>>) -> bool {
    &&& keys_ascend(es)
    &&& forall|i: int|
        0 <= i < es.len() ==> m.contains_key((#[trigger] es[i]).0) && m[es[i].0] == es[i].1
    &&& forall|k: u32| #[trigger] m.contains_key(k) ==> has_key(es, k)
}

/// Whether what an archive reads as is the map, with its entries in order.
pub open spec fn reads_as(read: Option<Seq<(u32, Seq<u8>)>>, m: Map<u32, Seq<u8>>) -> bool {
    match read {
        Some(es) => lists_map(es, m),
        None => false,
    }
}

/// A map of byte vectors, as a map of byte strings.
pub open spec fn byte_map(m: Map<u32, Vec<u8>>) -> Map<u32, Seq<u8>> {
    m.map_values(|v: Vec<u8>| v@)
}

/// Whether a buffer of aligned bytes can be `n` bytes long.
pub open spec fn buffer_fits(n: int) -> bool {
    n + 15 <= isize::MAX
}

/// Whether a byte string of the given length fits into an archive: its end can point back to
/// its start, and the buffer can be long enough.
pub open spec fn vec_fits(n: int) -> bool {
    let root = (n + 3) / 4 * 4;
    root <= OFFSET_LIMIT && buffer_fits(root + ROOT_SIZE)
}

/// The lengths of the byte strings in the entries.
pub open spec fn entry_lens(es: Seq<(u32, Seq<u8>)>) -> Seq<nat> {
    Seq::new(es.len(), |i: int| es[i].1.len())
}

/// Whether the entries fit into an archive: every offset reaches as far back as it has to, the
/// lengths and the position of the root node are not too great for the archive, and the buffer
/// can be long enough.
pub open spec fn entries_fit(es: Seq<(u32, Seq<u8>)>) -> bool {
    let placed = place_map(entry_lens(es));
    &&& es.len() <= NUMBER_LIMIT
    &&& forall|i: int| 0 <= i < es.len() ==> (#[trigger] es[i]).1.len() <= NUMBER_LIMIT
    &&& placed.reach <= OFFSET_LIMIT
    &&& placed.node matches Some(at) ==> at <= NUMBER_LIMIT
    &&& buffer_fits(placed.end + ROOT_SIZE)
}

/// Whether the entries of a map, listed in order, fit into an archive.
pub open spec fn map_fits(m: Map<u32, Seq<u8>>) -> bool {
    exists|es: Seq<(u32, Seq<u8>)>| #[trigger] lists_map(es, m) && entries_fit(es)
}

/// Bytes, padding, an offset and a length, put one behind the other, are found again.
proof fn lemma_archive_parts(s: Seq<u8>, pad: Seq<u8>, offset: Seq<u8>, len: Seq<u8>)
    requires
        offset.len() == 4,
        len.len() == 4,
    ensures
        ({
            let bytes = s + pad + offset + len;
            let root = s.len() + pad.len() as int;
            &&& bytes.len() == root + 8
            &&& bytes.subrange(0, s.len() as int) == s
            &&& bytes.subrange(root, root + 4) == offset
            &&& bytes.subrange(root + 4, root + 8) == len
        }),
{
    let bytes = s + pad + offset + len;
    let root = s.len() + pad.len() as int;
    assert(bytes.subrange(0, s.len() as int) =~= s);
    assert(bytes.subrange(root, root + 4) =~= offset);
    assert(bytes.subrange(root + 4, root + 8) =~= len);
}

/// A 32-bit integer has four bytes.
proof fn lemma_u32_len(v: int)
    ensures
        u32_bytes(v).len() == 4,
{
}

/// An archive whose end points back to its start reads as its first bytes.
proof fn lemma_reads_start(bytes: Seq<u8>, root: int, n: int)
    requires
        0 <= n <= root <= OFFSET_LIMIT,
        root % 4 == 0,
        bytes.len() == root + 8,
        u32_at(bytes, root) == if root == 0 {
            0
        } else {
            0x1_0000_0000 - root
        },
        u32_at(bytes, root + 4) == n,
    ensures
        read_vec_archive(bytes) == Some(bytes.subrange(0, n)),
{
}

/// Bytes, padding, the offset back to them and their number, put one behind the other, read as
/// the bytes.
#[verifier::rlimit(30)]
proof fn lemma_parts_read(s: Seq<u8>, pad: Seq<u8>, a: Seq<u8>, b: Seq<u8>, offset: int)
    requires
        (s.len() + pad.len()) % 4 == 0,
        s.len() + pad.len() <= OFFSET_LIMIT,
        offset == if s.len() + pad.len() == 0 {
            0
        } else {
            0x1_0000_0000 - (s.len() + pad.len())
        },
        a.len() == 4,
        b.len() == 4,
        a == u32_bytes(offset),
        b == u32_bytes(s.len() as int),
    ensures
        read_vec_archive(s + pad + a + b) == Some(s),
{
    let bytes = s + pad + a + b;
    let root = s.len() + pad.len() as int;
    lemma_archive_parts(s, pad, a, b);
    lemma_u32_round_trip(bytes, root, offset);
    lemma_u32_round_trip(bytes, root + 4, s.len() as int);
    lemma_reads_start(bytes, root, s.len() as int);
}

/// **Archives of byte strings read back.** Where a byte string fits into an archive, the archive
/// reads as the byte string.
#[verifier::rlimit(30)]
pub proof fn law_vec_archive(s: Seq<u8>)
    requires
        vec_fits(s.len() as int),
    ensures
        read_vec_archive(vec_archive(s)) == Some(s),
{
    let root = (s.len() + 3) / 4 * 4;
    let offset = (0x1_0000_0000 - root) % 0x1_0000_0000;
    let pad = zeros((root - s.len()) as nat);
    let a = u32_bytes(offset);
    let b = u32_bytes(s.len() as int);
    assert(vec_archive(s) == s + pad + a + b);
    assert(s.len() + pad.len() == root);
    assert(root % 4 == 0);
    assert(offset == if root == 0 {
        0
    } else {
        0x1_0000_0000 - root
    });
    lemma_u32_len(offset);
    lemma_u32_len(s.len() as int);
    lemma_parts_read(s, pad, a, b, offset);
}

/// `ArchivedVec::as_slice`: the slice holds the bytes of the archived vector.
#[verifier::external_body]
pub(crate) fn vec_as_slice<'a>(v: &'a ArchivedVec<u8>) -> (r: &'a [u8])
    ensures
        r@ == archived_bytes(*v),
{
    v.as_slice()
}

/// `rkyv::to_bytes` of a byte vector: it succeeds on vectors that fit into an archive, and it
/// lays the archive out as said above.
#[verifier::external_body]
pub(crate) fn archive_vec(v: &Vec<u8>) -> (r: Result<AlignedVec<16>, rkyv::rancor::Error>)
    requires
        vec_fits(v@.len() as int),
    ensures
        r is Ok,
        aligned_bytes(r->Ok_0) == vec_archive(v@),
{
    rkyv::to_bytes::<rkyv::rancor::Error>(v)
}

/// `rkyv::access` of an archived vector: it accepts the buffers that are said above, and the
/// vector then has the bytes that are said there.
#[verifier::external_body]
pub(crate) fn access_vec<'a>(bytes: &'a AlignedVec<16>) -> (r: Result<
    &'a ArchivedVec<u8>,
    rkyv::rancor::Error,
>)
    ensures
        match read_vec_archive(aligned_bytes(*bytes)) {
            Some(s) => r is Ok && archived_bytes(*r->Ok_0) == s,
            None => r is Err,
        },
{
    rkyv::access::<ArchivedVec<u8>, rkyv::rancor::Error>(bytes)
}

/// `rkyv::to_bytes` of a map of byte vectors: it panics where an offset does not fit into 32 bits,
/// and succeeds on maps that fit into an archive. The nodes are placed as [`place_map`] says. The
/// archive depends on the map alone, and accessing it gives a map back that has the same
/// entries and hands them out with ascending keys.
#[verifier::external_body]
pub(crate) fn archive_map(m: &BTreeMap<u32, Vec<u8>>) -> (r: Result<
    AlignedVec<16>,
    rkyv::rancor::Error,
>)
    requires
        map_fits(byte_map(m@)),
    ensures
        r is Ok,
        aligned_bytes(r->Ok_0) == map_archive(byte_map(m@)),
        reads_as(read_map_archive(aligned_bytes(r->Ok_0)), byte_map(m@)),
{
    rkyv::to_bytes::<rkyv::rancor::Error>(m)
}

/// `rkyv::access` of an archived map: whether the buffer is accepted, and which entries the
/// map then has, depends on the bytes of the buffer alone. Which buffers are accepted is not
/// stated. The nodes are checked by recursion: how deep a tree the stack has room for is up to
/// the machine.
#[verifier::external_body]
pub(crate) fn access_map<'a>(bytes: &'a AlignedVec<16>) -> (r: Result<
    &'a ArchivedByteMap,
    rkyv::rancor::Error,
>)
    ensures
        match read_map_archive(aligned_bytes(*bytes)) {
            Some(es) => r is Ok && archived_entries(*r->Ok_0) == es,
            None => r is Err,
        },
{
    rkyv::access::<ArchivedByteMap, rkyv::rancor::Error>(bytes)
}

/// `ArchivedBTreeMap::visit`: it calls the function it is given with each entry, one after the
/// other. Their keys are turned into native integers with `ArchivedU32::to_native`, and their
/// values are copied. The nodes are visited by recursion: how deep a tree the stack has room for
/// is up to the machine.
#[verifier::external_body]
pub(crate) fn map_visit(m: &ArchivedByteMap) -> (r: Vec<(u32, Vec<u8>)>)
    ensures
        r@.len() == archived_entries(*m).len(),
        forall|i: int|
            0 <= i < r@.len() ==> (#[trigger] r@[i]).0 == archived_entries(*m)[i].0 && r@[i].1@
                == archived_entries(*m)[i].1,
{
    let mut out: Vec<(u32, Vec<u8>)> = Vec::new();
    m.visit(
        |k, v| {
            out.push((k.to_native(), v.as_slice().to_vec()));
            core::ops::ControlFlow::<()>::Continue(())
        },
    );
    out
}

/// `ArchivedBTreeMap::len`: the number of entries. `rkyv::access` accepts no map that states
/// another number than `visit` hands out.
#[verifier::external_body]
pub(crate) fn map_len(m: &ArchivedByteMap) -> (r: usize)
    ensures
        r == archived_entries(*m).len(),
{
    m.len()
}

/// `ArchivedBTreeMap::get`: it ends at an entry with the key or at none, and it finds one that
/// is there if the keys ascend. At which entry it ends in another map is named and not stated.
#[verifier::external_body]
pub(crate) fn map_get<'a>(m: &'a ArchivedByteMap, key: u32) -> (r: Option<&'a ArchivedVec<u8>>)
    ensures
        match map_lookup(*m, key) {
            Some(s) => r is Some && archived_bytes(*r->0) == s,
            None => r is None,
        },
        r matches Some(v) ==> archived_entries(*m).contains((key, archived_bytes(*v))),
        r is None && keys_ascend(archived_entries(*m)) ==> !has_key(archived_entries(*m), key),
{
    m.get(&ArchivedU32::from_native(key))
}

} // verus!
