//! Writing a bitmap in the frozen format.
use crate::bitmap::models;
use crate::bitmap::RoaringBitmap;
use crate::bytes::lemma_splice;
use crate::bytes::lemma_splice_append;
use crate::bytes::splice;
use crate::bytes::u16_bytes;
use crate::bytes::u32_bytes;
use crate::bytes::write_u16;
use crate::bytes::write_u32;
use crate::bytes::write_u64;
use crate::bytes::write_u8;
use crate::format::codes_bytes;
use crate::format::counts_bytes;
use crate::format::data_bytes;
use crate::format::fits;
use crate::format::frozen_bytes;
use crate::format::header;
use crate::format::interval_bytes;
use crate::format::intervals_bytes;
use crate::format::keys_bytes;
use crate::format::store_bytes;
use crate::format::store_fits;
use crate::format::stored_count;
use crate::format::type_code;
use crate::format::values_bytes;
use crate::format::words_bytes;
use crate::format::zone_bytes;
use crate::format::ARRAY_CONTAINER_TYPE;
use crate::format::BITSET_CONTAINER_TYPE;
use crate::format::FROZEN_COOKIE;
use crate::format::RUN_CONTAINER_TYPE;
use crate::model::bits;
use crate::model::containers_wf;
use crate::model::lemma_ascending_len;
use crate::model::lemma_containers_len;
use crate::model::lemma_separated_len;
use crate::model::lemma_u16_set_finite;
use crate::model::ContainerModel;
use crate::model::Interval;
use crate::model::StoreModel;
use crate::model::BITMAP_LENGTH;
use crate::round_trip::lemma_store_size;
use crate::round_trip::lemma_zone_part;
use crate::store::Container;
use crate::store::Store;
use vstd::prelude::*;

verus! {

/// The format has room for containers in order.
pub proof fn lemma_wf_fits(ms: Seq<ContainerModel>)
    requires
        containers_wf(ms),
    ensures
        fits(ms),
{
    lemma_containers_len(ms);
    assert forall|i: int| 0 <= i < ms.len() implies store_fits((#[trigger] ms[i]).store) by {
        match ms[i].store {
            StoreModel::Array(s) => {
                lemma_ascending_len(s);
            },
            StoreModel::Bitmap(_, words) => {
                lemma_u16_set_finite(bits(words));
            },
            StoreModel::Run(s) => {
                lemma_separated_len(s);
            },
        }
    }
}

/// How the three zones grow from container to container.
proof fn lemma_data_len(ms: Seq<ContainerModel>, i: int)
    requires
        0 <= i < ms.len(),
        fits(ms),
    ensures
        data_bytes(ms.take(i + 1)).len() == data_bytes(ms.take(i)).len() + store_bytes(
            ms[i].store,
        ).len(),
        store_bytes(ms[i].store).len() <= 0x4_0000,
{
    assert(ms.take(i + 1).drop_last() =~= ms.take(i));
    assert(ms.take(i + 1).last() == ms[i]);
    lemma_store_size(ms[i].store, type_code(ms[i].store));
}

/// Whether the bytes from `at` on are `part`.
spec fn holds(buf: Seq<u8>, at: int, part: Seq<u8>) -> bool {
    &&& 0 <= at
    &&& at + part.len() <= buf.len()
    &&& buf.subrange(at, at + part.len()) == part
}

/// A splice leaves alone what stands elsewhere, and adds to what stands before it.
proof fn lemma_holds(buf: Seq<u8>, at: int, b: Seq<u8>)
    requires
        0 <= at,
        at + b.len() <= buf.len(),
    ensures
        forall|p: int, part: Seq<u8>|
            holds(buf, p, part) && (p + part.len() <= at || at + b.len() <= p)
                ==> #[trigger] holds(splice(buf, at, b), p, part),
        forall|p: int, part: Seq<u8>|
            #![trigger holds(splice(buf, at, b), p, part + b)]
            holds(buf, p, part) && p + part.len() == at ==> holds(
                splice(buf, at, b),
                p,
                part + b,
            ),
{
    lemma_splice(buf, at, b);
    let t = splice(buf, at, b);
    assert forall|p: int, part: Seq<u8>|
        #![trigger holds(t, p, part + b)]
        holds(buf, p, part) && p + part.len() == at implies holds(t, p, part + b) by {
        assert(t.subrange(p, at) == buf.subrange(p, at));
        assert(t.subrange(p, at + b.len()) =~= t.subrange(p, at) + t.subrange(at, at + b.len()));
    }
}

/// Writes values.
fn write_values(buf: &mut [u8], at: usize, s: &[u16])
    requires
        at + 2 * s.len() <= old(buf).len(),
    ensures
        final(buf)@ == splice(old(buf)@, at as int, values_bytes(s@)),
{
    let mut i: usize = 0;
    assert(buf@ =~= splice(old(buf)@, at as int, values_bytes(s@.take(0))));
    while i < s.len()
        invariant
            i <= s.len(),
            at + 2 * s.len() <= old(buf).len(),
            buf.len() == old(buf).len(),
            buf@ == splice(old(buf)@, at as int, values_bytes(s@.take(i as int))),
        decreases s.len() - i,
    {
        write_u16(buf, at + 2 * i, s[i]);
        proof {
            let done = values_bytes(s@.take(i as int));
            let one = u16_bytes(s@[i as int] as int);
            lemma_splice_append(old(buf)@, at as int, done, one);
            assert(values_bytes(s@.take(i + 1)) =~= done + one);
        }
        i = i + 1;
    }
    assert(s@.take(i as int) =~= s@);
}

/// Writes words.
fn write_words(buf: &mut [u8], at: usize, s: &[u64; BITMAP_LENGTH])
    requires
        at + 8 * BITMAP_LENGTH <= old(buf).len(),
    ensures
        final(buf)@ == splice(old(buf)@, at as int, words_bytes(s@)),
{
    let mut i: usize = 0;
    assert(buf@ =~= splice(old(buf)@, at as int, words_bytes(s@.take(0))));
    while i < BITMAP_LENGTH
        invariant
            i <= BITMAP_LENGTH,
            at + 8 * BITMAP_LENGTH <= old(buf).len(),
            buf.len() == old(buf).len(),
            buf@ == splice(old(buf)@, at as int, words_bytes(s@.take(i as int))),
        decreases BITMAP_LENGTH - i,
    {
        write_u64(buf, at + 8 * i, s[i]);
        proof {
            let done = words_bytes(s@.take(i as int));
            let one = crate::bytes::u64_bytes(s@[i as int] as int);
            lemma_splice_append(old(buf)@, at as int, done, one);
            assert(words_bytes(s@.take(i + 1)) =~= done + one);
        }
        i = i + 1;
    }
    assert(s@.take(i as int) =~= s@);
}

/// Writes intervals.
fn write_intervals(buf: &mut [u8], at: usize, s: &[Interval])
    requires
        at + 4 * s.len() <= old(buf).len(),
        forall|i: int| 0 <= i < s.len() ==> (#[trigger] s@[i]).start <= s@[i].end,
    ensures
        final(buf)@ == splice(old(buf)@, at as int, intervals_bytes(s@)),
{
    let mut i: usize = 0;
    assert(buf@ =~= splice(old(buf)@, at as int, intervals_bytes(s@.take(0))));
    while i < s.len()
        invariant
            i <= s.len(),
            at + 4 * s.len() <= old(buf).len(),
            forall|i: int| 0 <= i < s.len() ==> (#[trigger] s@[i]).start <= s@[i].end,
            buf.len() == old(buf).len(),
            buf@ == splice(old(buf)@, at as int, intervals_bytes(s@.take(i as int))),
        decreases s.len() - i,
    {
        let run: Interval = s[i];
        assert(run == s@[i as int]);
        let ghost was = buf@;
        write_u16(buf, at + 4 * i, run.start);
        write_u16(buf, at + 4 * i + 2, run.end - run.start);
        proof {
            let done = intervals_bytes(s@.take(i as int));
            let one = interval_bytes(run);
            lemma_splice_append(
                was,
                at + 4 * i,
                u16_bytes(run.start as int),
                u16_bytes(run.end - run.start),
            );
            lemma_splice_append(old(buf)@, at as int, done, one);
            assert(intervals_bytes(s@.take(i + 1)) =~= done + one);
        }
        i = i + 1;
    }
    assert(s@.take(i as int) =~= s@);
}

/// Whether `buf` holds what the first `i` containers write.
spec fn frozen_up_to(buf: Seq<u8>, ms: Seq<ContainerModel>, i: int) -> bool {
    let t = ms.take(i);
    let n = ms.len() as int;
    let b = zone_bytes(ms, BITSET_CONTAINER_TYPE).len() as int;
    let r = b + zone_bytes(ms, RUN_CONTAINER_TYPE).len();
    let k = r + zone_bytes(ms, ARRAY_CONTAINER_TYPE).len();
    &&& holds(buf, 0, zone_bytes(t, BITSET_CONTAINER_TYPE))
    &&& holds(buf, b, zone_bytes(t, RUN_CONTAINER_TYPE))
    &&& holds(buf, r, zone_bytes(t, ARRAY_CONTAINER_TYPE))
    &&& holds(buf, k, keys_bytes(t))
    &&& holds(buf, k + 2 * n, counts_bytes(t))
    &&& holds(buf, k + 4 * n, codes_bytes(t))
}

/// No container has written anything.
proof fn lemma_start(buf: Seq<u8>, ms: Seq<ContainerModel>)
    requires
        data_bytes(ms).len() + 5 * ms.len() <= buf.len(),
    ensures
        frozen_up_to(buf, ms, 0),
{
    let t = ms.take(0);
    let none = Seq::<u8>::empty();
    assert(forall|at: int| 0 <= at <= buf.len() ==> #[trigger] buf.subrange(at, at) =~= none);
    assert(forall|at: int| 0 <= at <= buf.len() ==> #[trigger] holds(buf, at, none));
    assert(forall|code: u8| #[trigger] zone_bytes(t, code) =~= none);
    assert(keys_bytes(t) =~= none);
    assert(counts_bytes(t) =~= none);
    assert(codes_bytes(t) =~= none);
}

/// Where the zone with the given code stands in the frozen form.
spec fn zone_start(ms: Seq<ContainerModel>, code: u8) -> int {
    if code == BITSET_CONTAINER_TYPE {
        0
    } else if code == RUN_CONTAINER_TYPE {
        zone_bytes(ms, BITSET_CONTAINER_TYPE).len() as int
    } else {
        zone_bytes(ms, BITSET_CONTAINER_TYPE).len() as int + zone_bytes(
            ms,
            RUN_CONTAINER_TYPE,
        ).len()
    }
}

/// The buffer after one more container: its store, key, count and type code go to their
/// places.
spec fn with_container(buf: Seq<u8>, ms: Seq<ContainerModel>, i: int) -> Seq<u8> {
    let m = ms[i].store;
    let n = ms.len() as int;
    let k = data_bytes(ms).len() as int;
    let p = zone_start(ms, type_code(m)) + zone_bytes(ms.take(i), type_code(m)).len();
    let b1 = splice(buf, k + 2 * i, u16_bytes(ms[i].key as int));
    let b2 = splice(b1, p, store_bytes(m));
    let b3 = splice(b2, k + 2 * n + 2 * i, u16_bytes(stored_count(m)));
    splice(b3, k + 4 * n + i, seq![type_code(m)])
}

/// One more container brings the buffer one step on, and leaves alone what stands behind
/// the metadata.
#[verifier::rlimit(30)]
proof fn lemma_with_container(buf: Seq<u8>, ms: Seq<ContainerModel>, i: int)
    requires
        fits(ms),
        0 <= i < ms.len(),
        frozen_up_to(buf, ms, i),
        data_bytes(ms).len() + 5 * ms.len() <= buf.len(),
    ensures
        frozen_up_to(with_container(buf, ms, i), ms, i + 1),
        with_container(buf, ms, i).len() == buf.len(),
        with_container(buf, ms, i).skip((data_bytes(ms).len() + 5 * ms.len()) as int) == buf.skip(
            (data_bytes(ms).len() + 5 * ms.len()) as int,
        ),
{
    let m = ms[i].store;
    let code = type_code(m);
    let n = ms.len() as int;
    let b = zone_bytes(ms, BITSET_CONTAINER_TYPE).len() as int;
    let r = b + zone_bytes(ms, RUN_CONTAINER_TYPE).len();
    let k = r + zone_bytes(ms, ARRAY_CONTAINER_TYPE).len();
    assert(data_bytes(ms).len() == k);
    let total = k + 5 * n;
    let t = ms.take(i);
    let u = ms.take(i + 1);
    assert(u.drop_last() =~= t);
    assert(u.last() == ms[i]);
    lemma_store_size(m, code);
    lemma_zone_part(ms, BITSET_CONTAINER_TYPE, i);
    lemma_zone_part(ms, RUN_CONTAINER_TYPE, i);
    lemma_zone_part(ms, ARRAY_CONTAINER_TYPE, i);
    let p = zone_start(ms, code) + zone_bytes(t, code).len();
    assert(p + store_bytes(m).len() <= k);
    let key = u16_bytes(ms[i].key as int);
    let count = u16_bytes(stored_count(m));
    let one = seq![code];
    let b1 = splice(buf, k + 2 * i, key);
    let b2 = splice(b1, p, store_bytes(m));
    let b3 = splice(b2, k + 2 * n + 2 * i, count);
    let b4 = splice(b3, k + 4 * n + i, one);
    assert(zone_bytes(u, code) =~= zone_bytes(t, code) + store_bytes(m));
    assert(forall|c: u8| c != code ==> #[trigger] zone_bytes(u, c) =~= zone_bytes(t, c));
    assert(keys_bytes(u) =~= keys_bytes(t) + key);
    assert(counts_bytes(u) =~= counts_bytes(t) + count);
    assert(codes_bytes(u) =~= codes_bytes(t) + one);
    lemma_holds(buf, k + 2 * i, key);
    lemma_splice(buf, k + 2 * i, key);
    lemma_holds(b1, p, store_bytes(m));
    lemma_splice(b1, p, store_bytes(m));
    lemma_holds(b2, k + 2 * n + 2 * i, count);
    lemma_splice(b2, k + 2 * n + 2 * i, count);
    lemma_holds(b3, k + 4 * n + i, one);
    lemma_splice(b3, k + 4 * n + i, one);
    // keys
    assert(holds(b1, k, keys_bytes(t) + key));
    assert(holds(b2, k, keys_bytes(u)));
    assert(holds(b3, k, keys_bytes(u)));
    assert(holds(b4, k, keys_bytes(u)));
    // counts
    assert(holds(b1, k + 2 * n, counts_bytes(t)));
    assert(holds(b2, k + 2 * n, counts_bytes(t)));
    assert(holds(b3, k + 2 * n, counts_bytes(t) + count));
    assert(holds(b4, k + 2 * n, counts_bytes(u)));
    // type codes
    assert(holds(b1, k + 4 * n, codes_bytes(t)));
    assert(holds(b2, k + 4 * n, codes_bytes(t)));
    assert(holds(b3, k + 4 * n, codes_bytes(t)));
    assert(holds(b4, k + 4 * n, codes_bytes(t) + one));
    // zones
    assert forall|c: u8|
        c == BITSET_CONTAINER_TYPE || c == RUN_CONTAINER_TYPE || c
            == ARRAY_CONTAINER_TYPE implies #[trigger] holds(
        b4,
        zone_start(ms, c),
        zone_bytes(u, c),
    ) by {
        let at = zone_start(ms, c);
        assert(holds(buf, at, zone_bytes(t, c)));
        assert(at + zone_bytes(t, c).len() <= k);
        assert(holds(b1, at, zone_bytes(t, c)));
        if c == code {
            assert(holds(b2, at, zone_bytes(t, c) + store_bytes(m)));
        } else {
            assert(holds(b2, at, zone_bytes(t, c)));
        }
        assert(holds(b2, at, zone_bytes(u, c)));
        assert(holds(b3, at, zone_bytes(u, c)));
    }
    assert(holds(b4, zone_start(ms, BITSET_CONTAINER_TYPE), zone_bytes(u, BITSET_CONTAINER_TYPE)));
    assert(holds(b4, zone_start(ms, RUN_CONTAINER_TYPE), zone_bytes(u, RUN_CONTAINER_TYPE)));
    assert(holds(b4, zone_start(ms, ARRAY_CONTAINER_TYPE), zone_bytes(u, ARRAY_CONTAINER_TYPE)));
    assert(b4.skip(total) =~= buf.skip(total));
}

/// The buffer that all containers have written to, with the header, is the frozen form.
proof fn lemma_finish(buf: Seq<u8>, ms: Seq<ContainerModel>)
    requires
        fits(ms),
        frozen_up_to(buf, ms, ms.len() as int),
        frozen_bytes(ms).len() <= buf.len(),
    ensures
        splice(buf, data_bytes(ms).len() as int + 5 * ms.len(), u32_bytes(header(ms.len() as int)))
            == frozen_bytes(ms) + buf.skip(frozen_bytes(ms).len() as int),
{
    let n = ms.len() as int;
    assert(ms.take(n) =~= ms);
    let b = zone_bytes(ms, BITSET_CONTAINER_TYPE).len() as int;
    let r = b + zone_bytes(ms, RUN_CONTAINER_TYPE).len();
    let k = r + zone_bytes(ms, ARRAY_CONTAINER_TYPE).len();
    let h = u32_bytes(header(n));
    assert(h.len() == 4);
    assert(buf.take(k + 5 * n) =~= buf.subrange(0, b) + buf.subrange(b, r) + buf.subrange(r, k)
        + buf.subrange(k, k + 2 * n) + buf.subrange(k + 2 * n, k + 4 * n) + buf.subrange(
        k + 4 * n,
        k + 5 * n,
    ));
    assert(splice(buf, k + 5 * n, h) =~= frozen_bytes(ms) + buf.skip(
        frozen_bytes(ms).len() as int,
    ));
}

/// How a zone grows by one more container, and that it does not outgrow the whole zone.
proof fn lemma_zone_step(ms: Seq<ContainerModel>, code: u8, i: int)
    requires
        0 <= i < ms.len(),
    ensures
        zone_bytes(ms.take(i + 1), code).len() == zone_bytes(ms.take(i), code).len() + if type_code(
            ms[i].store,
        ) == code {
            store_bytes(ms[i].store).len()
        } else {
            0
        },
        zone_bytes(ms.take(i + 1), code).len() <= zone_bytes(ms, code).len(),
{
    assert(ms.take(i + 1).drop_last() =~= ms.take(i));
    assert(ms.take(i + 1).last() == ms[i]);
    lemma_zone_part(ms, code, i);
}

/// Writes what belongs to a store in the zone of its kind.
fn write_store(buf: &mut [u8], at: usize, store: &Store)
    requires
        store_fits(store@),
        at + store_bytes(store@).len() <= old(buf).len(),
    ensures
        final(buf)@ == splice(old(buf)@, at as int, store_bytes(store@)),
{
    match store {
        Store::Bitmap(b) => {
            proof {
                b.lemma_words_len();
            }
            write_words(buf, at, b.as_array());
        },
        Store::Run(runs) => {
            write_intervals(buf, at, runs.as_slice());
        },
        Store::Array(a) => {
            write_values(buf, at, a.as_slice());
        },
    }
}

/// The number of bytes that a store takes up in the zone of its kind.
fn store_len(store: &Store) -> (r: usize)
    requires
        store_fits(store@),
    ensures
        r == store_bytes(store@).len(),
        r <= 0x4_0000,
{
    match store {
        Store::Bitmap(b) => {
            proof {
                b.lemma_words_len();
            }
            BITMAP_LENGTH * 8
        },
        Store::Run(runs) => runs.run_amount() as usize * 4,
        Store::Array(a) => a.len() as usize * 2,
    }
}

/// The count that is written for a store.
fn count_of(store: &Store) -> (r: u16)
    requires
        store_fits(store@),
    ensures
        r == stored_count(store@),
{
    match store {
        Store::Bitmap(b) => (b.len() - 1) as u16,
        Store::Run(runs) => runs.run_amount() as u16,
        Store::Array(a) => (a.len() - 1) as u16,
    }
}

/// The type code of a store.
fn code_of(store: &Store) -> (r: u8)
    ensures
        r == type_code(store@),
{
    match store {
        Store::Bitmap(_) => BITSET_CONTAINER_TYPE,
        Store::Run(_) => RUN_CONTAINER_TYPE,
        Store::Array(_) => ARRAY_CONTAINER_TYPE,
    }
}

impl RoaringBitmap {
    /// Whether the format has room for the bitmap. It has for every bitmap in order.
    pub open spec fn freezable(&self) -> bool {
        self.wf() || fits(self.model())
    }

    /// The number of bytes that the frozen form takes up, also where a `usize` is too
    /// narrow for it.
    pub fn frozen_len(&self) -> (r: u64)
        requires
            self.freezable(),
        ensures
            r == frozen_bytes(self.model()).len(),
            r <= 0x2_0000 * 0x4_0005 + 4,
    {
        let containers: &[Container] = self.containers();
        let ghost ms = self.model();
        proof {
            if self.wf() {
                lemma_wf_fits(ms);
            }
            assert(data_bytes(ms.take(0)) =~= Seq::<u8>::empty());
        }
        let mut num_bytes: u64 = 0;
        let mut i: usize = 0;
        while i < containers.len()
            invariant
                i <= containers.len(),
                models(containers@) == ms,
                fits(ms),
                num_bytes == data_bytes(ms.take(i as int)).len(),
                num_bytes <= i * 0x4_0000,
            decreases containers.len() - i,
        {
            proof {
                lemma_data_len(ms, i as int);
                assert(ms[i as int] == containers@[i as int]@);
            }
            num_bytes = num_bytes + store_len(&containers[i].store) as u64;
            i = i + 1;
        }
        assert(ms.take(i as int) =~= ms);
        num_bytes + 5 * containers.len() as u64 + 4
    }

    /// The number of bytes that the frozen form of the bitmap takes up.
    #[must_use]
    pub fn frozen_size_in_bytes(&self) -> (r: usize)
        requires
            self.freezable(),
            frozen_bytes(self.model()).len() <= usize::MAX,
        ensures
            r == frozen_bytes(self.model()).len(),
    {
        self.frozen_len() as usize
    }

    /// Writes the frozen form of the bitmap to the start of the buffer, which must have room
    /// for it.
    #[verifier::rlimit(40)]
    pub fn frozen_serialize_into(&self, buf: &mut [u8])
        requires
            self.freezable(),
            frozen_bytes(self.model()).len() <= old(buf).len(),
        ensures
            final(buf)@ == frozen_bytes(self.model()) + old(buf)@.skip(
                frozen_bytes(self.model()).len() as int,
            ),
    {
        let containers: &[Container] = self.containers();
        let n: usize = containers.len();
        let ghost ms = self.model();
        proof {
            if self.wf() {
                lemma_wf_fits(ms);
            }
        }
        let mut bitset_size: usize = 0;
        let mut run_size: usize = 0;
        let mut array_size: usize = 0;
        let mut i: usize = 0;
        while i < n
            invariant
                i <= n,
                n == containers.len(),
                models(containers@) == ms,
                fits(ms),
                frozen_bytes(ms).len() <= buf.len(),
                bitset_size == zone_bytes(ms.take(i as int), BITSET_CONTAINER_TYPE).len(),
                run_size == zone_bytes(ms.take(i as int), RUN_CONTAINER_TYPE).len(),
                array_size == zone_bytes(ms.take(i as int), ARRAY_CONTAINER_TYPE).len(),
            decreases n - i,
        {
            proof {
                assert(ms[i as int] == containers@[i as int]@);
                lemma_zone_step(ms, BITSET_CONTAINER_TYPE, i as int);
                lemma_zone_step(ms, RUN_CONTAINER_TYPE, i as int);
                lemma_zone_step(ms, ARRAY_CONTAINER_TYPE, i as int);
            }
            let size: usize = store_len(&containers[i].store);
            match &containers[i].store {
                Store::Bitmap(_) => {
                    bitset_size = bitset_size + size;
                },
                Store::Run(_) => {
                    run_size = run_size + size;
                },
                Store::Array(_) => {
                    array_size = array_size + size;
                },
            }
            i = i + 1;
        }
        assert(ms.take(n as int) =~= ms);

        let mut bitset_ptr: usize = 0;
        let mut run_ptr: usize = bitset_size;
        let mut array_ptr: usize = bitset_size + run_size;
        let keys_start: usize = bitset_size + run_size + array_size;
        let mut keys_ptr: usize = keys_start;
        let mut counts_ptr: usize = keys_ptr + 2 * n;
        let mut typecodes_ptr: usize = counts_ptr + 2 * n;
        let header_ptr: usize = typecodes_ptr + n;
        i = 0;
        proof {
            lemma_start(buf@, ms);
        }
        while i < n
            invariant
                i <= n,
                n == containers.len(),
                models(containers@) == ms,
                fits(ms),
                frozen_bytes(ms).len() <= buf.len(),
                buf.len() == old(buf).len(),
                bitset_size == zone_bytes(ms, BITSET_CONTAINER_TYPE).len(),
                run_size == zone_bytes(ms, RUN_CONTAINER_TYPE).len(),
                array_size == zone_bytes(ms, ARRAY_CONTAINER_TYPE).len(),
                bitset_ptr == zone_bytes(ms.take(i as int), BITSET_CONTAINER_TYPE).len(),
                run_ptr == bitset_size + zone_bytes(ms.take(i as int), RUN_CONTAINER_TYPE).len(),
                array_ptr == bitset_size + run_size + zone_bytes(
                    ms.take(i as int),
                    ARRAY_CONTAINER_TYPE,
                ).len(),
                keys_start == bitset_size + run_size + array_size,
                keys_ptr == keys_start + 2 * i,
                counts_ptr == keys_start + 2 * n + 2 * i,
                typecodes_ptr == keys_start + 4 * n + i,
                header_ptr == keys_start + 5 * n,
                frozen_up_to(buf@, ms, i as int),
                buf@.skip(header_ptr as int) == old(buf)@.skip(header_ptr as int),
            decreases n - i,
        {
            let c: &Container = &containers[i];
            let ghost was = buf@;
            proof {
                assert(ms[i as int] == c@);
                lemma_zone_step(ms, BITSET_CONTAINER_TYPE, i as int);
                lemma_zone_step(ms, RUN_CONTAINER_TYPE, i as int);
                lemma_zone_step(ms, ARRAY_CONTAINER_TYPE, i as int);
                lemma_with_container(was, ms, i as int);
            }
            let size: usize = store_len(&c.store);
            write_u16(buf, keys_ptr, c.key);
            match &c.store {
                Store::Bitmap(_) => {
                    write_store(buf, bitset_ptr, &c.store);
                    bitset_ptr = bitset_ptr + size;
                },
                Store::Run(_) => {
                    write_store(buf, run_ptr, &c.store);
                    run_ptr = run_ptr + size;
                },
                Store::Array(_) => {
                    write_store(buf, array_ptr, &c.store);
                    array_ptr = array_ptr + size;
                },
            }
            write_u16(buf, counts_ptr, count_of(&c.store));
            write_u8(buf, typecodes_ptr, code_of(&c.store));
            assert(buf@ == with_container(was, ms, i as int));
            keys_ptr = keys_ptr + 2;
            counts_ptr = counts_ptr + 2;
            typecodes_ptr = typecodes_ptr + 1;
            i = i + 1;
        }
        let ghost was = buf@;
        write_u32(buf, header_ptr, n as u32 * 0x8000 + FROZEN_COOKIE);
        proof {
            lemma_finish(was, ms);
            let size = frozen_bytes(ms).len() as int;
            assert(was.skip(size) =~= was.skip(header_ptr as int).skip(4));
            assert(old(buf)@.skip(size) =~= old(buf)@.skip(header_ptr as int).skip(4));
        }
    }
}

} // verus!
