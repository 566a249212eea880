//! The fixed-slot map engine.
//!
//! A [`FixedSlotMap`] lives entirely inside a caller-provided [`Memory`]
//! region. The region holds a structural header (format magic, the declared
//! maximum key and value sizes, the root location and the entry count)
//! followed by an array of fixed-width slots, one per entry, kept sorted by
//! the byte order of the serialized keys. Every entry occupies exactly one
//! slot of `8 + max_key_size + max_value_size` bytes no matter how short its
//! actual encoding is, which keeps slot addressing a constant-time
//! computation.

use core::marker::PhantomData;
use vstd::map::*;
use vstd::prelude::*;
use vstd::slice::slice_subrange;
use vstd::slice::slice_to_vec;

use crate::byte_order::cmp_bytes;
use crate::byte_order::lemma_lex_irrefl;
use crate::byte_order::lex_lt;
use crate::byte_order::sorted_strict;
use crate::codec::le32;
use crate::codec::le32_encode;
use crate::codec::le32_decode;
use crate::codec::le64;
use crate::codec::le64_encode;
use crate::codec::le64_decode;
use crate::codec::lemma_le32_injective;
use crate::codec::lemma_le64_injective;
use crate::errors::MapError;
use crate::memory::spans_pages;
use crate::memory::Memory;
use crate::memory::MAX_REGION_PAGES;
use crate::memory::PAGE_SIZE;
use crate::storable::Storable;

verus! {

/// Magic number a formatted window starts with; its low byte carries the
/// layout version.
pub const LAYOUT_MAGIC: u32 = 0x4D53_4601;

/// Bytes reserved for the structural header; the slot array starts here,
/// and the header's root-location field records this offset.
pub const HEADER_SIZE: u64 = 32;

/// Largest accepted maximum key or value size in bytes.
pub const MAX_SIZE_BOUND: u32 = 65536;

/// Width in bytes of one slot: the two stored lengths plus room for a
/// maximal key and a maximal value.
pub open spec fn slot_width(mks: u32, mvs: u32) -> int {
    8 + mks as int + mvs as int
}

/// Byte offset of slot `i` inside the region.
pub open spec fn slot_offset(i: int, mks: u32, mvs: u32) -> int {
    HEADER_SIZE as int + i * slot_width(mks, mvs)
}

/// Slot `i` of `contents` holds `key` and `val`: their stored lengths and
/// their bytes, each at its fixed place. Padding bytes are immaterial.
pub open spec fn slot_ok(
    contents: Seq<u8>,
    i: int,
    key: Seq<u8>,
    val: Seq<u8>,
    mks: u32,
    mvs: u32,
) -> bool {
    let off = slot_offset(i, mks, mvs);
    &&& contents.subrange(off, off + 4) == le32(key.len() as u32)
    &&& contents.subrange(off + 4, off + 8) == le32(val.len() as u32)
    &&& contents.subrange(off + 8, off + 8 + key.len() as int) == key
    &&& contents.subrange(off + 8 + mks as int, off + 8 + mks as int + val.len() as int) == val
}

/// The durability contract of a formatted region: a header recording the
/// declared sizes and the entry count, then one well-formed slot per entry.
pub open spec fn region_inv(
    contents: Seq<u8>,
    keys: Seq<Seq<u8>>,
    vals: Seq<Seq<u8>>,
    mks: u32,
    mvs: u32,
) -> bool {
    &&& keys.len() == vals.len()
    &&& keys.len() <= 0xffff_ffff
    &&& contents.len() >= slot_offset(keys.len() as int, mks, mvs)
    &&& contents.subrange(0, 4) == le32(LAYOUT_MAGIC)
    &&& contents.subrange(4, 8) == le32(mks)
    &&& contents.subrange(8, 12) == le32(mvs)
    &&& contents.subrange(12, 20) == le64(HEADER_SIZE)
    &&& contents.subrange(20, 28) == le64(keys.len() as u64)
    &&& forall|i: int|
        0 <= i < keys.len() ==> (#[trigger] keys[i]).len() <= mks as int && vals[i].len()
            <= mvs as int
    &&& forall|i: int| 0 <= i < keys.len() ==> slot_ok(contents, i, keys[i], vals[i], mks, mvs)
}

/// The value stored under `k`, the latest slot winning; sorted key
/// sequences hold each key at most once, so the choice does not matter.
pub open spec fn lookup(keys: Seq<Seq<u8>>, vals: Seq<Seq<u8>>, k: Seq<u8>) -> Seq<u8>
    decreases keys.len(),
{
    if keys.len() == 0 {
        Seq::empty()
    } else if keys.last() == k {
        vals.last()
    } else {
        lookup(keys.drop_last(), vals.drop_last(), k)
    }
}

/// The finite map a pair of key and value columns denotes.
pub open spec fn seqs_to_map(keys: Seq<Seq<u8>>, vals: Seq<Seq<u8>>) -> Map<Seq<u8>, Seq<u8>> {
    Map::new(|k: Seq<u8>| keys.contains(k), |k: Seq<u8>| lookup(keys, vals, k))
}

/// No key occurs at two places of a strictly sorted key column.
pub proof fn lemma_sorted_unique(keys: Seq<Seq<u8>>)
    requires
        sorted_strict(keys),
    ensures
        forall|i: int, j: int|
            0 <= i < keys.len() && 0 <= j < keys.len() && i != j ==> keys[i] != keys[j],
{
    assert forall|i: int, j: int|
        0 <= i < keys.len() && 0 <= j < keys.len() && i != j implies keys[i] != keys[j] by {
        if keys[i] == keys[j] {
            if i < j {
                lemma_lex_irrefl(keys[i]);
            } else {
                lemma_lex_irrefl(keys[j]);
            }
        }
    }
}

/// `lookup` returns the column entry of the key's index when the key occurs
/// exactly once.
pub proof fn lemma_lookup_at(keys: Seq<Seq<u8>>, vals: Seq<Seq<u8>>, i: int, k: Seq<u8>)
    requires
        keys.len() == vals.len(),
        0 <= i < keys.len(),
        keys[i] == k,
        forall|j: int| 0 <= j < keys.len() && j != i ==> keys[j] != k,
    ensures
        lookup(keys, vals, k) == vals[i],
    decreases keys.len(),
{
    if i + 1 == keys.len() {
    } else {
        lemma_lookup_at(keys.drop_last(), vals.drop_last(), i, k);
    }
}

/// Replacing the value column at the index of `keys[i]` is, at the map
/// level, an insert of the new value under that key.
pub proof fn lemma_map_overwrite(keys: Seq<Seq<u8>>, vals: Seq<Seq<u8>>, i: int, v: Seq<u8>)
    requires
        keys.len() == vals.len(),
        0 <= i < keys.len(),
        forall|a: int, b: int|
            0 <= a < keys.len() && 0 <= b < keys.len() && a != b ==> keys[a] != keys[b],
    ensures
        seqs_to_map(keys, vals.update(i, v)) == seqs_to_map(keys, vals).insert(keys[i], v),
{
    let m1 = seqs_to_map(keys, vals.update(i, v));
    let m2 = seqs_to_map(keys, vals).insert(keys[i], v);
    assert forall|k: Seq<u8>| m1.dom().contains(k) implies m2.dom().contains(k) by {}
    assert forall|k: Seq<u8>| m2.dom().contains(k) implies m1.dom().contains(k) by {}
    assert forall|k: Seq<u8>| #[trigger] m1.dom().contains(k) implies m1[k] == m2[k] by {
        let j = choose|j: int| 0 <= j < keys.len() && keys[j] == k;
        if k == keys[i] {
            lemma_lookup_at(keys, vals.update(i, v), i, k);
        } else {
            lemma_lookup_at(keys, vals.update(i, v), j, k);
            lemma_lookup_at(keys, vals, j, k);
        }
    }
    assert(m1 =~= m2);
}

/// Inserting a fresh key and its value at position `p` of both columns is,
/// at the map level, an insert of that binding.
pub proof fn lemma_map_insert_at(
    keys: Seq<Seq<u8>>,
    vals: Seq<Seq<u8>>,
    p: int,
    k: Seq<u8>,
    v: Seq<u8>,
)
    requires
        keys.len() == vals.len(),
        0 <= p <= keys.len(),
        !keys.contains(k),
        forall|a: int, b: int|
            0 <= a < keys.len() && 0 <= b < keys.len() && a != b ==> keys[a] != keys[b],
    ensures
        seqs_to_map(keys.insert(p, k), vals.insert(p, v)) == seqs_to_map(keys, vals).insert(k, v),
{
    let nk = keys.insert(p, k);
    let nv = vals.insert(p, v);
    let m1 = seqs_to_map(nk, nv);
    let m2 = seqs_to_map(keys, vals).insert(k, v);
    assert(nk[p] == k);
    assert forall|a: int| 0 <= a < keys.len() implies #[trigger] keys[a] == (if a < p {
        nk[a]
    } else {
        nk[a + 1]
    }) by {}
    assert forall|a: int| 0 <= a < vals.len() implies #[trigger] vals[a] == (if a < p {
        nv[a]
    } else {
        nv[a + 1]
    }) by {}
    assert forall|a: int, b: int|
        0 <= a < nk.len() && 0 <= b < nk.len() && a != b implies nk[a] != nk[b] by {
        let a0 = if a < p {
            a
        } else {
            a - 1
        };
        let b0 = if b < p {
            b
        } else {
            b - 1
        };
        if a == p {
            if nk[a] == nk[b] {
                assert(keys[b0] == k);
                assert(keys.contains(k));
            }
        } else if b == p {
            if nk[a] == nk[b] {
                assert(keys[a0] == k);
                assert(keys.contains(k));
            }
        } else {
            assert(nk[a] == keys[a0] && nk[b] == keys[b0]);
        }
    }
    assert forall|x: Seq<u8>| m1.dom().contains(x) implies m2.dom().contains(x) by {
        let j = choose|j: int| 0 <= j < nk.len() && nk[j] == x;
        if j != p {
            let j0 = if j < p {
                j
            } else {
                j - 1
            };
            assert(keys[j0] == x);
        }
    }
    assert forall|x: Seq<u8>| m2.dom().contains(x) implies m1.dom().contains(x) by {
        if x == k {
            assert(nk[p] == x);
        } else {
            let j = choose|j: int| 0 <= j < keys.len() && keys[j] == x;
            if j < p {
                assert(nk[j] == x);
            } else {
                assert(nk[j + 1] == x);
            }
        }
    }
    assert forall|x: Seq<u8>| #[trigger] m1.dom().contains(x) implies m1[x] == m2[x] by {
        if x == k {
            lemma_lookup_at(nk, nv, p, x);
        } else {
            let j = choose|j: int| 0 <= j < keys.len() && keys[j] == x;
            lemma_lookup_at(keys, vals, j, x);
            if j < p {
                lemma_lookup_at(nk, nv, j, x);
            } else {
                lemma_lookup_at(nk, nv, j + 1, x);
            }
        }
    }
    assert(m1 =~= m2);
}

/// Removing position `p` from both columns is, at the map level, a removal
/// of that key.
pub proof fn lemma_map_remove_at(keys: Seq<Seq<u8>>, vals: Seq<Seq<u8>>, p: int)
    requires
        keys.len() == vals.len(),
        0 <= p < keys.len(),
        forall|a: int, b: int|
            0 <= a < keys.len() && 0 <= b < keys.len() && a != b ==> keys[a] != keys[b],
    ensures
        seqs_to_map(keys.remove(p), vals.remove(p)) == seqs_to_map(keys, vals).remove(keys[p]),
{
    let nk = keys.remove(p);
    let nv = vals.remove(p);
    let m1 = seqs_to_map(nk, nv);
    let m2 = seqs_to_map(keys, vals).remove(keys[p]);
    assert forall|a: int| 0 <= a < nk.len() implies #[trigger] nk[a] == (if a < p {
        keys[a]
    } else {
        keys[a + 1]
    }) && #[trigger] nv[a] == (if a < p {
        vals[a]
    } else {
        vals[a + 1]
    }) by {}
    assert forall|x: Seq<u8>| m1.dom().contains(x) implies m2.dom().contains(x) by {
        let j = choose|j: int| 0 <= j < nk.len() && nk[j] == x;
        let j0 = if j < p {
            j
        } else {
            j + 1
        };
        assert(keys[j0] == x);
    }
    assert forall|x: Seq<u8>| m2.dom().contains(x) implies m1.dom().contains(x) by {
        let j = choose|j: int| 0 <= j < keys.len() && keys[j] == x;
        if j < p {
            assert(nk[j] == x);
        } else {
            assert(nk[j - 1] == x);
        }
    }
    assert forall|x: Seq<u8>| #[trigger] m1.dom().contains(x) implies m1[x] == m2[x] by {
        let j = choose|j: int| 0 <= j < keys.len() && keys[j] == x;
        lemma_lookup_at(keys, vals, j, x);
        if j < p {
            lemma_lookup_at(nk, nv, j, x);
        } else {
            lemma_lookup_at(nk, nv, j - 1, x);
        }
    }
    assert(m1 =~= m2);
}

/// Consecutive slot offsets differ by exactly one slot width.
pub proof fn lemma_slot_offset_step(i: int, mks: u32, mvs: u32)
    ensures
        slot_offset(i + 1, mks, mvs) == slot_offset(i, mks, mvs) + slot_width(mks, mvs),
{
    assert((i + 1) * slot_width(mks, mvs) == i * slot_width(mks, mvs) + slot_width(mks, mvs))
        by (nonlinear_arith);
}

/// Slot offsets grow with the slot index.
pub proof fn lemma_slot_offset_mono(i: int, j: int, mks: u32, mvs: u32)
    requires
        i <= j,
    ensures
        slot_offset(i, mks, mvs) <= slot_offset(j, mks, mvs),
{
    assert(i * slot_width(mks, mvs) <= j * slot_width(mks, mvs)) by (nonlinear_arith)
        requires
            i <= j && slot_width(mks, mvs) >= 0,
    ;
}

/// A subrange outside the written range is untouched by a pointwise-framed
/// update.
pub proof fn lemma_subrange_stable(
    older: Seq<u8>,
    newer: Seq<u8>,
    lo: int,
    hi: int,
    a: int,
    b: int,
)
    requires
        newer.len() >= older.len(),
        0 <= a <= b <= older.len(),
        forall|j: int| 0 <= j < older.len() && !(lo <= j < hi) ==> newer[j] == older[j],
        b <= lo || a >= hi,
    ensures
        newer.subrange(a, b) == older.subrange(a, b),
{
    assert(newer.subrange(a, b) =~= older.subrange(a, b));
}

/// A slot that does not overlap the written range still holds its entry
/// after a pointwise-framed update.
pub proof fn lemma_slot_ok_stable(
    older: Seq<u8>,
    newer: Seq<u8>,
    lo: int,
    hi: int,
    i: int,
    key: Seq<u8>,
    val: Seq<u8>,
    mks: u32,
    mvs: u32,
)
    requires
        newer.len() >= older.len(),
        slot_ok(older, i, key, val, mks, mvs),
        key.len() <= mks as int,
        val.len() <= mvs as int,
        0 <= slot_offset(i, mks, mvs),
        slot_offset(i + 1, mks, mvs) <= older.len(),
        forall|j: int| 0 <= j < older.len() && !(lo <= j < hi) ==> newer[j] == older[j],
        slot_offset(i + 1, mks, mvs) <= lo || hi <= slot_offset(i, mks, mvs),
    ensures
        slot_ok(newer, i, key, val, mks, mvs),
{
    let off = slot_offset(i, mks, mvs);
    lemma_slot_offset_step(i, mks, mvs);
    lemma_subrange_stable(older, newer, lo, hi, off, off + 4);
    lemma_subrange_stable(older, newer, lo, hi, off + 4, off + 8);
    lemma_subrange_stable(older, newer, lo, hi, off + 8, off + 8 + key.len() as int);
    lemma_subrange_stable(
        older,
        newer,
        lo,
        hi,
        off + 8 + mks as int,
        off + 8 + mks as int + val.len() as int,
    );
}

/// A division bound: if `a` slots of width `w` fit under `b` bytes, then
/// `a` is at most `b / w`.
pub proof fn lemma_le_div(a: int, b: int, w: int)
    requires
        w > 0,
        0 <= a,
        a * w <= b,
    ensures
        a <= b / w,
{
    assert(a <= b / w) by (nonlinear_arith)
        requires
            w > 0 && 0 <= a && a * w <= b,
    ;
}

/// What a division result covers: `(b / w) * w` never exceeds `b`.
pub proof fn lemma_mul_div_le(b: int, w: int)
    requires
        w > 0,
        0 <= b,
    ensures
        (b / w) * w <= b,
        0 <= b / w,
        b / w <= b,
{
    assert((b / w) * w <= b && 0 <= b / w && b / w <= b) by (nonlinear_arith)
        requires
            w > 0 && 0 <= b,
    ;
}

/// Two entries stored in the same slot of the same bytes are the same entry.
pub proof fn lemma_slot_determined(
    contents: Seq<u8>,
    i: int,
    k1: Seq<u8>,
    v1: Seq<u8>,
    k2: Seq<u8>,
    v2: Seq<u8>,
    mks: u32,
    mvs: u32,
)
    requires
        slot_ok(contents, i, k1, v1, mks, mvs),
        slot_ok(contents, i, k2, v2, mks, mvs),
        k1.len() <= mks as int,
        k2.len() <= mks as int,
        v1.len() <= mvs as int,
        v2.len() <= mvs as int,
    ensures
        k1 == k2,
        v1 == v2,
{
    lemma_le32_injective(k1.len() as u32, k2.len() as u32);
    lemma_le32_injective(v1.len() as u32, v2.len() as u32);
}

/// The views of a column of byte vectors.
pub open spec fn views_of(s: Seq<Vec<u8>>) -> Seq<Seq<u8>> {
    Seq::new(s.len(), |i: int| s[i]@)
}

/// Copies the byte range `[a, b)` of `v` into a fresh vector.
fn vec_range(v: &Vec<u8>, a: usize, b: usize) -> (r: Vec<u8>)
    requires
        a <= b <= v@.len(),
    ensures
        r@ == v@.subrange(a as int, b as int),
{
    slice_to_vec(slice_subrange(v.as_slice(), a, b))
}

/// Writes slot `i` — the two stored lengths, the key bytes and the value
/// bytes — leaving every byte outside the slot untouched.
fn store_slot<M: Memory>(mem: &mut M, i: u64, mks: u32, mvs: u32, kb: &Vec<u8>, vb: &Vec<u8>)
    requires
        old(mem).inv(),
        mks <= MAX_SIZE_BOUND,
        mvs <= MAX_SIZE_BOUND,
        kb@.len() <= mks as int,
        vb@.len() <= mvs as int,
        slot_offset(i as int + 1, mks, mvs) <= old(mem).contents().len(),
    ensures
        final(mem).inv(),
        final(mem).contents().len() == old(mem).contents().len(),
        slot_ok(final(mem).contents(), i as int, kb@, vb@, mks, mvs),
        forall|j: int|
            0 <= j < old(mem).contents().len() && !(slot_offset(i as int, mks, mvs) <= j
                < slot_offset(i as int + 1, mks, mvs)) ==> final(mem).contents()[j] == old(
                mem,
            ).contents()[j],
{
    proof {
        mem.lemma_region_shape();
        lemma_slot_offset_step(i as int, mks, mvs);
        lemma_slot_offset_mono(0, i as int, mks, mvs);
    }
    let w: u64 = 8 + mks as u64 + mvs as u64;
    let off: u64 = HEADER_SIZE + i * w;
    let klen: u32 = kb.len() as u32;
    let vlen: u32 = vb.len() as u32;
    let ghost c0 = mem.contents();
    let r1 = mem.write(off, &le32_encode(klen));
    proof {
        if r1 is Err {
            assert(false);
        }
    }
    let ghost c1 = mem.contents();
    let r2 = mem.write(off + 4, &le32_encode(vlen));
    proof {
        if r2 is Err {
            assert(false);
        }
    }
    let ghost c2 = mem.contents();
    let r3 = mem.write(off + 8, kb);
    proof {
        if r3 is Err {
            assert(false);
        }
    }
    let ghost c3 = mem.contents();
    let r4 = mem.write(off + 8 + mks as u64, vb);
    proof {
        if r4 is Err {
            assert(false);
        }
        let c4 = mem.contents();
        assert(c4.subrange(off as int, off as int + 4) =~= le32(klen));
        assert(c4.subrange(off as int + 4, off as int + 8) =~= le32(vlen));
        assert(c4.subrange(off as int + 8, off as int + 8 + kb@.len() as int) =~= kb@);
        assert(c4.subrange(
            off as int + 8 + mks as int,
            off as int + 8 + mks as int + vb@.len() as int,
        ) =~= vb@);
    }
}

/// Rewrites the entry-count field of the header, leaving everything else
/// untouched.
fn store_count<M: Memory>(mem: &mut M, count: u64)
    requires
        old(mem).inv(),
        28 <= old(mem).contents().len(),
    ensures
        final(mem).inv(),
        final(mem).contents().len() == old(mem).contents().len(),
        final(mem).contents().subrange(20, 28) == le64(count),
        forall|j: int|
            0 <= j < old(mem).contents().len() && !(20 <= j < 28) ==> final(mem).contents()[j]
                == old(mem).contents()[j],
{
    let r = mem.write(20, &le64_encode(count));
    proof {
        if r is Err {
            assert(false);
        }
        assert(mem.contents().subrange(20, 28) =~= le64(count));
    }
}

/// The persistent fixed-slot map engine.
///
/// Keys and values are any [`Storable`] types; entries live inside the
/// backing [`Memory`] as fixed-width slots sorted by the byte order of the
/// serialized keys, so the engine recovers its full state from the region
/// alone when it is re-attached.
pub struct FixedSlotMap<M: Memory, K: Storable, V: Storable> {
    mem: M,
    max_key_size: u32,
    max_value_size: u32,
    keys: Vec<Vec<u8>>,
    vals: Vec<Vec<u8>>,
    marker: PhantomData<(K, V)>,
}

impl<M: Memory, K: Storable, V: Storable> FixedSlotMap<M, K, V> {
    /// Serialized keys currently stored, in slot order.
    pub closed spec fn key_seq(&self) -> Seq<Seq<u8>> {
        views_of(self.keys@)
    }

    /// Serialized values currently stored, in slot order.
    pub closed spec fn val_seq(&self) -> Seq<Seq<u8>> {
        views_of(self.vals@)
    }

    /// The declared maximum serialized key size.
    pub closed spec fn spec_max_key_size(&self) -> u32 {
        self.max_key_size
    }

    /// The declared maximum serialized value size.
    pub closed spec fn spec_max_value_size(&self) -> u32 {
        self.max_value_size
    }

    /// The bytes of the backing region.
    pub closed spec fn mem_contents(&self) -> Seq<u8> {
        self.mem.contents()
    }

    /// The finite map of serialized keys to serialized values this engine
    /// currently holds.
    pub open spec fn as_map(&self) -> Map<Seq<u8>, Seq<u8>> {
        seqs_to_map(self.key_seq(), self.val_seq())
    }

    /// Well-formedness: the declared sizes are in range, the key column is
    /// strictly sorted, and the backing region holds exactly the entries of
    /// the columns under the durability contract.
    pub closed spec fn wf(&self) -> bool {
        &&& self.mem.inv()
        &&& self.max_key_size <= MAX_SIZE_BOUND
        &&& self.max_value_size <= MAX_SIZE_BOUND
        &&& sorted_strict(self.key_seq())
        &&& region_inv(
            self.mem.contents(),
            self.key_seq(),
            self.val_seq(),
            self.max_key_size,
            self.max_value_size,
        )
    }

    /// Initializes a map over `mem`, declaring the maximum serialized sizes.
    ///
    /// An empty region is formatted: one page is claimed and a fresh header
    /// written. A non-empty region is re-attached: the header is validated
    /// against the requested sizes — differing recorded sizes are refused
    /// with `SchemaMismatch`, since the slot layout depends on them — and
    /// every stored entry is recovered. Bytes that do not parse under the
    /// layout are refused with `DecodeError`.
    #[verifier::loop_isolation(false)]
    pub fn init(mem: M, max_key_size: u32, max_value_size: u32) -> (r: Result<
        FixedSlotMap<M, K, V>,
        MapError,
    >)
        requires
            mem.inv(),
            max_key_size <= MAX_SIZE_BOUND,
            max_value_size <= MAX_SIZE_BOUND,
        ensures
            match r {
                Ok(m) => m.wf() && m.spec_max_key_size() == max_key_size
                    && m.spec_max_value_size() == max_value_size && (mem.contents().len() == 0
                    ==> m.key_seq().len() == 0 && m.val_seq().len() == 0 && m.mem_contents().len()
                    == PAGE_SIZE as int) && (mem.contents().len() > 0 ==> m.mem_contents()
                    == mem.contents()),
                Err(e) => {
                    &&& (e == MapError::GrowFailed || e == MapError::SchemaMismatch || e
                        == MapError::DecodeError)
                    &&& e == MapError::GrowFailed ==> mem.contents().len() == 0 && !mem.can_grow(1)
                    &&& e == MapError::SchemaMismatch ==> mem.contents().len() >= 28
                        && mem.contents().subrange(0, 4) == le32(LAYOUT_MAGIC) && (exists|
                        a: u32,
                        b: u32,
                    |
                        mem.contents().subrange(4, 8) == le32(a) && mem.contents().subrange(8, 12)
                            == le32(b) && (a != max_key_size || b != max_value_size))
                    &&& e == MapError::DecodeError ==> mem.contents().len() > 0
                },
            },
            mem.contents().len() == 0 && mem.can_grow(1) ==> r is Ok,
            (exists|ks: Seq<Seq<u8>>, vs: Seq<Seq<u8>>|
                #[trigger] region_inv(mem.contents(), ks, vs, max_key_size, max_value_size)
                    && sorted_strict(ks)) ==> r is Ok,
            forall|ks: Seq<Seq<u8>>, vs: Seq<Seq<u8>>, a: u32, b: u32|
                #[trigger] region_inv(mem.contents(), ks, vs, a, b) && (a != max_key_size || b
                    != max_value_size) ==> (r matches Err(e) && e == MapError::SchemaMismatch),
    {
        proof {
            mem.lemma_region_shape();
        }
        let mut mem = mem;
        let pages: u64 = mem.size_pages();
        proof {
            let p = choose|p: u64|
                p <= MAX_REGION_PAGES && spans_pages(p, mem.contents().len() as int);
            assert(pages == p);
        }
        let size: u64 = pages * PAGE_SIZE;
        if size == 0 {
            match mem.grow(1) {
                Err(_) => {
                    return Err(MapError::GrowFailed);
                },
                Ok(_) => {},
            }
            let mut h: Vec<u8> = le32_encode(LAYOUT_MAGIC);
            let mut part_mks: Vec<u8> = le32_encode(max_key_size);
            h.append(&mut part_mks);
            let mut part_mvs: Vec<u8> = le32_encode(max_value_size);
            h.append(&mut part_mvs);
            let mut part_root: Vec<u8> = le64_encode(HEADER_SIZE);
            h.append(&mut part_root);
            let mut part_count: Vec<u8> = le64_encode(0);
            h.append(&mut part_count);
            proof {
                assert(h@ =~= le32(LAYOUT_MAGIC) + le32(max_key_size) + le32(max_value_size)
                    + le64(HEADER_SIZE) + le64(0));
            }
            let wr = mem.write(0, &h);
            proof {
                if wr is Err {
                    assert(false);
                }
                let cn = mem.contents();
                assert(forall|j: int| 0 <= j < 28 ==> cn[j] == h@[j]);
                assert(cn.subrange(0, 4) =~= le32(LAYOUT_MAGIC));
                assert(cn.subrange(4, 8) =~= le32(max_key_size));
                assert(cn.subrange(8, 12) =~= le32(max_value_size));
                assert(cn.subrange(12, 20) =~= le64(HEADER_SIZE));
                assert(cn.subrange(20, 28) =~= le64(0));
            }
            let m = FixedSlotMap {
                mem,
                max_key_size,
                max_value_size,
                keys: Vec::new(),
                vals: Vec::new(),
                marker: PhantomData,
            };
            proof {
                assert(m.key_seq() =~= Seq::<Seq<u8>>::empty());
                assert(m.val_seq() =~= Seq::<Seq<u8>>::empty());
            }
            return Ok(m);
        }
        let ghost c = mem.contents();
        let hv = match mem.read(0, 28) {
            Ok(v) => v,
            Err(_) => {
                proof {
                    assert(false);
                }
                return Err(MapError::DecodeError);
            },
        };
        let magic: u32 = le32_decode(&vec_range(&hv, 0, 4));
        let stored_mks: u32 = le32_decode(&vec_range(&hv, 4, 8));
        let stored_mvs: u32 = le32_decode(&vec_range(&hv, 8, 12));
        let root: u64 = le64_decode(&vec_range(&hv, 12, 20));
        let count64: u64 = le64_decode(&vec_range(&hv, 20, 28));
        proof {
            assert(hv@.subrange(0, 4) =~= c.subrange(0, 4));
            assert(hv@.subrange(4, 8) =~= c.subrange(4, 8));
            assert(hv@.subrange(8, 12) =~= c.subrange(8, 12));
            assert(hv@.subrange(12, 20) =~= c.subrange(12, 20));
            assert(hv@.subrange(20, 28) =~= c.subrange(20, 28));
        }
        if magic != LAYOUT_MAGIC {
            proof {
                assert forall|ks: Seq<Seq<u8>>, vs: Seq<Seq<u8>>, a: u32, b: u32|
                    !(#[trigger] region_inv(c, ks, vs, a, b)) by {
                    if region_inv(c, ks, vs, a, b) {
                        lemma_le32_injective(magic, LAYOUT_MAGIC);
                    }
                }
            }
            return Err(MapError::DecodeError);
        }
        if stored_mks != max_key_size || stored_mvs != max_value_size {
            proof {
                assert forall|ks: Seq<Seq<u8>>, vs: Seq<Seq<u8>>|
                    !(#[trigger] region_inv(c, ks, vs, max_key_size, max_value_size)) by {
                    if region_inv(c, ks, vs, max_key_size, max_value_size) {
                        lemma_le32_injective(stored_mks, max_key_size);
                        lemma_le32_injective(stored_mvs, max_value_size);
                    }
                }
                assert(c.subrange(4, 8) == le32(stored_mks) && c.subrange(8, 12) == le32(
                    stored_mvs,
                ) && (stored_mks != max_key_size || stored_mvs != max_value_size));
            }
            return Err(MapError::SchemaMismatch);
        }
        proof {
            assert forall|ks: Seq<Seq<u8>>, vs: Seq<Seq<u8>>, a: u32, b: u32| #[trigger]
                region_inv(c, ks, vs, a, b) implies a == max_key_size && b == max_value_size by {
                lemma_le32_injective(a, stored_mks);
                lemma_le32_injective(b, stored_mvs);
            }
        }
        if root != HEADER_SIZE {
            proof {
                assert forall|ks: Seq<Seq<u8>>, vs: Seq<Seq<u8>>|
                    !(#[trigger] region_inv(c, ks, vs, max_key_size, max_value_size)) by {
                    if region_inv(c, ks, vs, max_key_size, max_value_size) {
                        lemma_le64_injective(root, HEADER_SIZE);
                    }
                }
            }
            return Err(MapError::DecodeError);
        }
        let w64: u64 = 8 + max_key_size as u64 + max_value_size as u64;
        let cap: u64 = (size - HEADER_SIZE) / w64;
        if count64 > cap {
            proof {
                assert forall|ks: Seq<Seq<u8>>, vs: Seq<Seq<u8>>|
                    !(#[trigger] region_inv(c, ks, vs, max_key_size, max_value_size)) by {
                    if region_inv(c, ks, vs, max_key_size, max_value_size) {
                        lemma_le64_injective(count64, ks.len() as u64);
                        lemma_le_div(
                            ks.len() as int,
                            (size - HEADER_SIZE) as int,
                            w64 as int,
                        );
                    }
                }
            }
            return Err(MapError::DecodeError);
        }
        proof {
            lemma_mul_div_le((size - HEADER_SIZE) as int, w64 as int);
            assert(count64 as int * w64 as int <= cap as int * w64 as int) by (nonlinear_arith)
                requires
                    count64 as int <= cap as int && w64 as int >= 0,
            ;
            assert(count64 as int <= 0x8000_0000) by (nonlinear_arith)
                requires
                    count64 as int * w64 as int <= 0x8000_0000 && w64 as int >= 8 && count64 as int
                        >= 0,
            ;
        }
        let count: usize = count64 as usize;
        let mut lkeys: Vec<Vec<u8>> = Vec::new();
        let mut lvals: Vec<Vec<u8>> = Vec::new();
        let mut i: usize = 0;
        while i < count
            invariant
                mem.inv(),
                mem.contents() == c,
                0 <= i <= count,
                count == count64 as int,
                count64 as int * w64 as int + HEADER_SIZE as int <= c.len(),
                w64 == slot_width(max_key_size, max_value_size),
                max_key_size <= MAX_SIZE_BOUND,
                max_value_size <= MAX_SIZE_BOUND,
                c.len() <= 0x8000_0000,
                c.subrange(0, 4) == le32(LAYOUT_MAGIC),
                c.subrange(4, 8) == le32(max_key_size),
                c.subrange(8, 12) == le32(max_value_size),
                c.subrange(12, 20) == le64(HEADER_SIZE),
                c.subrange(20, 28) == le64(count64),
                lkeys@.len() == i,
                lvals@.len() == i,
                forall|j: int|
                    0 <= j < i ==> (#[trigger] views_of(lkeys@)[j]).len()
                        <= max_key_size as int && views_of(lvals@)[j].len()
                        <= max_value_size as int,
                forall|j: int|
                    0 <= j < i ==> slot_ok(
                        c,
                        j,
                        #[trigger] views_of(lkeys@)[j],
                        views_of(lvals@)[j],
                        max_key_size,
                        max_value_size,
                    ),
                forall|a: int, b: int|
                    0 <= a < b < i ==> lex_lt(views_of(lkeys@)[a], views_of(lkeys@)[b]),
            decreases count - i,
        {
            proof {
                lemma_slot_offset_mono(i as int + 1, count as int, max_key_size, max_value_size);
                lemma_slot_offset_step(i as int, max_key_size, max_value_size);
                lemma_slot_offset_mono(0, i as int, max_key_size, max_value_size);
            }
            let off: u64 = HEADER_SIZE + (i as u64) * w64;
            let lens = match mem.read(off, 8) {
                Ok(v) => v,
                Err(_) => {
                    proof {
                        assert(false);
                    }
                    return Err(MapError::DecodeError);
                },
            };
            let klen32: u32 = le32_decode(&vec_range(&lens, 0, 4));
            let vlen32: u32 = le32_decode(&vec_range(&lens, 4, 8));
            proof {
                assert(lens@.subrange(0, 4) =~= c.subrange(off as int, off as int + 4));
                assert(lens@.subrange(4, 8) =~= c.subrange(off as int + 4, off as int + 8));
            }
            if klen32 > max_key_size || vlen32 > max_value_size {
                proof {
                    assert forall|ks: Seq<Seq<u8>>, vs: Seq<Seq<u8>>|
                        !(#[trigger] region_inv(c, ks, vs, max_key_size, max_value_size)) by {
                        if region_inv(c, ks, vs, max_key_size, max_value_size) {
                            lemma_le64_injective(count64, ks.len() as u64);
                            assert(i < ks.len());
                            assert(slot_ok(
                                c,
                                i as int,
                                ks[i as int],
                                vs[i as int],
                                max_key_size,
                                max_value_size,
                            ));
                            lemma_le32_injective(klen32, ks[i as int].len() as u32);
                            lemma_le32_injective(vlen32, vs[i as int].len() as u32);
                        }
                    }
                }
                return Err(MapError::DecodeError);
            }
            let kb = match mem.read(off + 8, klen32 as u64) {
                Ok(v) => v,
                Err(_) => {
                    proof {
                        assert(false);
                    }
                    return Err(MapError::DecodeError);
                },
            };
            let vb = match mem.read(off + 8 + max_key_size as u64, vlen32 as u64) {
                Ok(v) => v,
                Err(_) => {
                    proof {
                        assert(false);
                    }
                    return Err(MapError::DecodeError);
                },
            };
            proof {
                assert(kb@ =~= c.subrange(off as int + 8, off as int + 8 + klen32 as int));
                assert(vb@ =~= c.subrange(
                    off as int + 8 + max_key_size as int,
                    off as int + 8 + max_key_size as int + vlen32 as int,
                ));
                assert(c.subrange(off as int, off as int + 4) == le32(kb@.len() as u32));
                assert(c.subrange(off as int + 4, off as int + 8) == le32(vb@.len() as u32));
                assert(slot_ok(c, i as int, kb@, vb@, max_key_size, max_value_size));
            }
            if i > 0 {
                let cres: i8 = cmp_bytes(lkeys[i - 1].as_slice(), kb.as_slice());
                if cres != -1 {
                    proof {
                        assert forall|ks: Seq<Seq<u8>>, vs: Seq<Seq<u8>>|
                            !(#[trigger] region_inv(c, ks, vs, max_key_size, max_value_size)
                                && sorted_strict(ks)) by {
                            if region_inv(c, ks, vs, max_key_size, max_value_size)
                                && sorted_strict(ks) {
                                lemma_le64_injective(count64, ks.len() as u64);
                                assert(i < ks.len());
                                assert(slot_ok(
                                    c,
                                    i as int - 1,
                                    ks[i as int - 1],
                                    vs[i as int - 1],
                                    max_key_size,
                                    max_value_size,
                                ));
                                assert(slot_ok(
                                    c,
                                    i as int,
                                    ks[i as int],
                                    vs[i as int],
                                    max_key_size,
                                    max_value_size,
                                ));
                                lemma_slot_determined(
                                    c,
                                    i as int - 1,
                                    views_of(lkeys@)[i as int - 1],
                                    views_of(lvals@)[i as int - 1],
                                    ks[i as int - 1],
                                    vs[i as int - 1],
                                    max_key_size,
                                    max_value_size,
                                );
                                lemma_slot_determined(
                                    c,
                                    i as int,
                                    kb@,
                                    vb@,
                                    ks[i as int],
                                    vs[i as int],
                                    max_key_size,
                                    max_value_size,
                                );
                            }
                        }
                    }
                    return Err(MapError::DecodeError);
                }
                proof {
                    assert forall|j: int| 0 <= j < i implies lex_lt(
                        views_of(lkeys@)[j],
                        kb@,
                    ) by {
                        if j < i - 1 {
                            crate::byte_order::lemma_lex_trans(
                                views_of(lkeys@)[j],
                                views_of(lkeys@)[i - 1],
                                kb@,
                            );
                        }
                    }
                }
            }
            let ghost pk = lkeys@;
            let ghost pv = lvals@;
            lkeys.push(kb);
            lvals.push(vb);
            proof {
                assert forall|j: int| 0 <= j < i + 1 implies views_of(lkeys@)[j] == (if j
                    < i as int {
                    views_of(pk)[j]
                } else {
                    kb@
                }) && views_of(lvals@)[j] == (if j < i as int {
                    views_of(pv)[j]
                } else {
                    vb@
                }) by {
                    assert(lkeys@[j] == pk.push(kb)[j]);
                    assert(lvals@[j] == pv.push(vb)[j]);
                }
            }
            i = i + 1;
        }
        let m = FixedSlotMap {
            mem,
            max_key_size,
            max_value_size,
            keys: lkeys,
            vals: lvals,
            marker: PhantomData,
        };
        proof {
            assert(region_inv(c, m.key_seq(), m.val_seq(), max_key_size, max_value_size));
        }
        Ok(m)
    }

    /// Ordered search for the serialized key `kb`: either the slot that
    /// holds it, or the sorted position where it would be inserted.
    #[verifier::loop_isolation(false)]
    fn find_slot(&self, kb: &Vec<u8>) -> (r: (bool, usize))
        requires
            self.wf(),
        ensures
            r.1 <= self.key_seq().len(),
            r.0 ==> r.1 < self.key_seq().len() && self.key_seq()[r.1 as int] == kb@,
            !r.0 ==> (forall|j: int| 0 <= j < r.1 ==> lex_lt(#[trigger] self.key_seq()[j], kb@))
                && (forall|j: int|
                r.1 <= j < self.key_seq().len() ==> lex_lt(kb@, #[trigger] self.key_seq()[j])),
    {
        let mut lo: usize = 0;
        let mut hi: usize = self.keys.len();
        while lo < hi
            invariant
                0 <= lo <= hi <= self.key_seq().len(),
                forall|j: int| 0 <= j < lo ==> lex_lt(#[trigger] self.key_seq()[j], kb@),
                forall|j: int|
                    hi <= j < self.key_seq().len() ==> lex_lt(kb@, #[trigger] self.key_seq()[j]),
            decreases hi - lo,
        {
            let mid: usize = lo + (hi - lo) / 2;
            let cres: i8 = cmp_bytes(self.keys[mid].as_slice(), kb.as_slice());
            if cres == 0 {
                return (true, mid);
            } else if cres == -1 {
                proof {
                    assert forall|j: int| 0 <= j < mid + 1 implies lex_lt(
                        #[trigger] self.key_seq()[j],
                        kb@,
                    ) by {
                        if j < mid {
                            crate::byte_order::lemma_lex_trans(
                                self.key_seq()[j],
                                self.key_seq()[mid as int],
                                kb@,
                            );
                        }
                    }
                }
                lo = mid + 1;
            } else {
                proof {
                    assert forall|j: int| mid <= j < self.key_seq().len() implies lex_lt(
                        kb@,
                        #[trigger] self.key_seq()[j],
                    ) by {
                        if j > mid {
                            crate::byte_order::lemma_lex_trans(
                                kb@,
                                self.key_seq()[mid as int],
                                self.key_seq()[j],
                            );
                        }
                    }
                }
                hi = mid;
            }
        }
        (false, lo)
    }

    /// Retrieves the value stored under `key`, or absence when the key was
    /// never stored.
    ///
    /// A key whose serialized form exceeds the declared maximum is refused
    /// with `KeyTooLarge`. Stored value bytes that no longer decode report
    /// `DecodeError`; under this engine's own writes that cannot happen and
    /// signals external corruption of the region.
    pub fn get(&self, key: &K) -> (r: Result<Option<V>, MapError>)
        requires
            self.wf(),
        ensures
            match r {
                Ok(Some(v)) => self.as_map().contains_key(key.encode_spec())
                    && key.encode_spec().len() <= self.spec_max_key_size() as int && ((exists|w: V|
                    w.encode_spec() == self.as_map()[key.encode_spec()])
                    ==> v.encode_spec() == self.as_map()[key.encode_spec()]),
                Ok(None) => key.encode_spec().len() <= self.spec_max_key_size() as int
                    && !self.as_map().contains_key(key.encode_spec()),
                Err(e) => {
                    &&& (e == MapError::KeyTooLarge || e == MapError::DecodeError)
                    &&& (e == MapError::KeyTooLarge <==> key.encode_spec().len()
                        > self.spec_max_key_size() as int)
                    &&& e == MapError::DecodeError ==> self.as_map().contains_key(
                        key.encode_spec(),
                    ) && !(exists|w: V| w.encode_spec() == self.as_map()[key.encode_spec()])
                },
            },
    {
        let kb: Vec<u8> = key.to_bytes();
        if kb.len() > self.max_key_size as usize {
            return Err(MapError::KeyTooLarge);
        }
        let (found, idx) = self.find_slot(&kb);
        if !found {
            proof {
                if self.as_map().contains_key(kb@) {
                    let j = choose|j: int|
                        0 <= j < self.key_seq().len() && self.key_seq()[j] == kb@;
                    lemma_lex_irrefl(kb@);
                }
            }
            return Ok(None);
        }
        proof {
            lemma_sorted_unique(self.key_seq());
            assert(self.key_seq().contains(kb@));
            lemma_lookup_at(self.key_seq(), self.val_seq(), idx as int, kb@);
            assert(self.as_map()[kb@] == self.val_seq()[idx as int]);
        }
        match V::from_bytes(self.vals[idx].as_slice()) {
            Ok(v) => Ok(Some(v)),
            Err(_) => Err(MapError::DecodeError),
        }
    }

    /// The backing region already has room for one more slot, or can still
    /// grow by the pages that slot would need.
    pub closed spec fn can_reserve_slot(&self) -> bool {
        let needed = slot_offset(
            self.key_seq().len() as int + 1,
            self.max_key_size,
            self.max_value_size,
        );
        let len = self.mem.contents().len() as int;
        needed <= len || self.mem.can_grow(
            (((needed - len) + PAGE_SIZE as int - 1) / (PAGE_SIZE as int)) as u64,
        )
    }

    /// Inserts `value` under `key`, returning the previously stored value.
    ///
    /// Both serialized forms are checked against the declared maxima before
    /// anything is written, so a refused insert leaves the map exactly as it
    /// was. A key already present has its slot overwritten in place; a fresh
    /// key claims a new slot in sorted position, growing the backing region
    /// on demand — a region that cannot grow refuses with `GrowFailed`,
    /// again without effect.
    #[verifier::loop_isolation(false)]
    #[verifier::rlimit(100)]
    pub fn insert(&mut self, key: &K, value: &V) -> (r: Result<Option<V>, MapError>)
        requires
            old(self).wf(),
        ensures
            final(self).wf(),
            final(self).spec_max_key_size() == old(self).spec_max_key_size(),
            final(self).spec_max_value_size() == old(self).spec_max_value_size(),
            final(self).mem_contents().len() >= old(self).mem_contents().len(),
            match r {
                Ok(prev) => {
                    &&& key.encode_spec().len() <= old(self).spec_max_key_size() as int
                    &&& value.encode_spec().len() <= old(self).spec_max_value_size() as int
                    &&& final(self).as_map() == old(self).as_map().insert(
                        key.encode_spec(),
                        value.encode_spec(),
                    )
                    &&& match prev {
                        None => !old(self).as_map().contains_key(key.encode_spec()) && final(self).key_seq().len() == old(self).key_seq().len() + 1,
                        Some(pv) => old(self).as_map().contains_key(key.encode_spec()) && final(self).key_seq().len() == old(self).key_seq().len() && ((exists|w: V|
                            w.encode_spec() == old(self).as_map()[key.encode_spec()])
                            ==> pv.encode_spec() == old(self).as_map()[key.encode_spec()]),
                    }
                },
                Err(e) => {
                    &&& final(self).as_map() == old(self).as_map()
                    &&& final(self).key_seq() == old(self).key_seq()
                    &&& final(self).val_seq() == old(self).val_seq()
                    &&& final(self).mem_contents() == old(self).mem_contents()
                    &&& (e == MapError::KeyTooLarge || e == MapError::ValueTooLarge || e
                        == MapError::GrowFailed || e == MapError::DecodeError)
                    &&& (e == MapError::KeyTooLarge <==> key.encode_spec().len() > old(self).spec_max_key_size() as int)
                    &&& (e == MapError::ValueTooLarge <==> key.encode_spec().len() <= old(self).spec_max_key_size() as int && value.encode_spec().len() > old(self).spec_max_value_size() as int)
                    &&& e == MapError::GrowFailed ==> !old(self).as_map().contains_key(
                        key.encode_spec(),
                    ) && slot_offset(
                        old(self).key_seq().len() as int + 1,
                        old(self).spec_max_key_size(),
                        old(self).spec_max_value_size(),
                    ) > old(self).mem_contents().len() && !old(self).can_reserve_slot()
                    &&& e == MapError::DecodeError ==> old(self).as_map().contains_key(
                        key.encode_spec(),
                    ) && !(exists|w: V|
                        w.encode_spec() == old(self).as_map()[key.encode_spec()])
                },
            },
            key.encode_spec().len() <= old(self).spec_max_key_size() as int
                && value.encode_spec().len() <= old(self).spec_max_value_size() as int && old(self).as_map().contains_key(key.encode_spec()) && (exists|w: V|
                w.encode_spec() == old(self).as_map()[key.encode_spec()]) ==> r is Ok,
            key.encode_spec().len() <= old(self).spec_max_key_size() as int
                && value.encode_spec().len() <= old(self).spec_max_value_size() as int && !old(self).as_map().contains_key(key.encode_spec()) && slot_offset(
                old(self).key_seq().len() as int + 1,
                old(self).spec_max_key_size(),
                old(self).spec_max_value_size(),
            ) <= old(self).mem_contents().len() ==> r is Ok,
            key.encode_spec().len() <= old(self).spec_max_key_size() as int
                && value.encode_spec().len() <= old(self).spec_max_value_size() as int && !old(self).as_map().contains_key(key.encode_spec()) && old(self).can_reserve_slot()
                ==> r is Ok,
    {
        let kb: Vec<u8> = key.to_bytes();
        if kb.len() > self.max_key_size as usize {
            return Err(MapError::KeyTooLarge);
        }
        let vb: Vec<u8> = value.to_bytes();
        if vb.len() > self.max_value_size as usize {
            return Err(MapError::ValueTooLarge);
        }
        let (found, idx) = self.find_slot(&kb);
        proof {
            lemma_sorted_unique(self.key_seq());
        }
        if found {
            proof {
                assert(self.key_seq().contains(kb@));
                lemma_lookup_at(self.key_seq(), self.val_seq(), idx as int, kb@);
                assert(self.as_map()[kb@] == self.val_seq()[idx as int]);
            }
            let prev: V = match V::from_bytes(self.vals[idx].as_slice()) {
                Ok(p) => p,
                Err(_) => {
                    return Err(MapError::DecodeError);
                },
            };
            let ghost c0 = self.mem.contents();
            let ghost oldk = self.key_seq();
            let ghost oldv = self.val_seq();
            proof {
                lemma_slot_offset_mono(
                    idx as int + 1,
                    oldk.len() as int,
                    self.max_key_size,
                    self.max_value_size,
                );
                lemma_slot_offset_mono(0, idx as int, self.max_key_size, self.max_value_size);
                lemma_slot_offset_step(idx as int, self.max_key_size, self.max_value_size);
            }
            store_slot(
                &mut self.mem,
                idx as u64,
                self.max_key_size,
                self.max_value_size,
                &kb,
                &vb,
            );
            self.vals.set(idx, vb);
            proof {
                let c1 = self.mem.contents();
                let lo = slot_offset(idx as int, self.max_key_size, self.max_value_size);
                let hi = slot_offset(idx as int + 1, self.max_key_size, self.max_value_size);
                lemma_subrange_stable(c0, c1, lo, hi, 0, 4);
                lemma_subrange_stable(c0, c1, lo, hi, 4, 8);
                lemma_subrange_stable(c0, c1, lo, hi, 8, 12);
                lemma_subrange_stable(c0, c1, lo, hi, 12, 20);
                lemma_subrange_stable(c0, c1, lo, hi, 20, 28);
                assert(self.key_seq() =~= oldk);
                assert(self.val_seq() =~= oldv.update(idx as int, vb@));
                assert forall|t: int| 0 <= t < oldk.len() implies slot_ok(
                    c1,
                    t,
                    self.key_seq()[t],
                    self.val_seq()[t],
                    self.max_key_size,
                    self.max_value_size,
                ) by {
                    if t != idx as int {
                        lemma_slot_offset_step(t, self.max_key_size, self.max_value_size);
                        if t < idx as int {
                            lemma_slot_offset_mono(
                                t + 1,
                                idx as int,
                                self.max_key_size,
                                self.max_value_size,
                            );
                        } else {
                            lemma_slot_offset_mono(
                                idx as int + 1,
                                t,
                                self.max_key_size,
                                self.max_value_size,
                            );
                        }
                        lemma_slot_offset_mono(0, t, self.max_key_size, self.max_value_size);
                        lemma_slot_offset_mono(
                            t + 1,
                            oldk.len() as int,
                            self.max_key_size,
                            self.max_value_size,
                        );
                        lemma_slot_ok_stable(
                            c0,
                            c1,
                            lo,
                            hi,
                            t,
                            oldk[t],
                            oldv[t],
                            self.max_key_size,
                            self.max_value_size,
                        );
                    }
                }
                lemma_map_overwrite(oldk, oldv, idx as int, vb@);
                assert(region_inv(
                    c1,
                    self.key_seq(),
                    self.val_seq(),
                    self.max_key_size,
                    self.max_value_size,
                ));
            }
            return Ok(Some(prev));
        }
        proof {
            if self.as_map().contains_key(kb@) {
                let j = choose|j: int| 0 <= j < self.key_seq().len() && self.key_seq()[j] == kb@;
                lemma_lex_irrefl(kb@);
            }
        }
        let n: usize = self.keys.len();
        let w64: u64 = 8 + self.max_key_size as u64 + self.max_value_size as u64;
        proof {
            self.mem.lemma_region_shape();
            lemma_slot_offset_mono(0, n as int, self.max_key_size, self.max_value_size);
            lemma_slot_offset_step(n as int, self.max_key_size, self.max_value_size);
        }
        let pages: u64 = self.mem.size_pages();
        proof {
            let p = choose|p: u64|
                p <= MAX_REGION_PAGES && spans_pages(p, self.mem.contents().len() as int);
            assert(pages == p);
        }
        let size: u64 = pages * PAGE_SIZE;
        let needed: u64 = HEADER_SIZE + (n as u64 + 1) * w64;
        let ghost c0 = self.mem.contents();
        let ghost oldk = self.key_seq();
        let ghost oldv = self.val_seq();
        if needed > size {
            let deficit: u64 = needed - size;
            let add_pages: u64 = (deficit + PAGE_SIZE - 1) / PAGE_SIZE;
            match self.mem.grow(add_pages) {
                Err(_) => {
                    proof {
                        assert(needed as int == slot_offset(
                            oldk.len() as int + 1,
                            self.max_key_size,
                            self.max_value_size,
                        ));
                        assert(add_pages as int == ((needed as int - c0.len() as int)
                            + PAGE_SIZE as int - 1) / (PAGE_SIZE as int));
                        assert(!old(self).can_reserve_slot());
                    }
                    return Err(MapError::GrowFailed);
                },
                Ok(_) => {
                    proof {
                        assert(add_pages as int * PAGE_SIZE as int >= deficit as int)
                            by (nonlinear_arith)
                            requires
                                add_pages as int == (deficit as int + PAGE_SIZE as int - 1)
                                    / PAGE_SIZE as int && deficit as int >= 0 && PAGE_SIZE as int
                                    > 0,
                        ;
                        let c1 = self.mem.contents();
                        assert(c1.subrange(0, 4) =~= c0.subrange(0, 4));
                        assert(c1.subrange(4, 8) =~= c0.subrange(4, 8));
                        assert(c1.subrange(8, 12) =~= c0.subrange(8, 12));
                        assert(c1.subrange(12, 20) =~= c0.subrange(12, 20));
                        assert(c1.subrange(20, 28) =~= c0.subrange(20, 28));
                        assert forall|t: int| 0 <= t < oldk.len() implies slot_ok(
                            c1,
                            t,
                            oldk[t],
                            oldv[t],
                            self.max_key_size,
                            self.max_value_size,
                        ) by {
                            lemma_slot_offset_step(t, self.max_key_size, self.max_value_size);
                            lemma_slot_offset_mono(0, t, self.max_key_size, self.max_value_size);
                            lemma_slot_offset_mono(
                                t + 1,
                                oldk.len() as int,
                                self.max_key_size,
                                self.max_value_size,
                            );
                            lemma_slot_ok_stable(
                                c0,
                                c1,
                                c0.len() as int,
                                c1.len() as int,
                                t,
                                oldk[t],
                                oldv[t],
                                self.max_key_size,
                                self.max_value_size,
                            );
                        }
                    }
                },
            }
        }
        let ghost cg = self.mem.contents();
        proof {
            self.mem.lemma_region_shape();
            let p2 = choose|p: u64| p <= MAX_REGION_PAGES && spans_pages(p, cg.len() as int);
            assert(cg.len() <= 0x8000_0000) by (nonlinear_arith)
                requires
                    cg.len() == p2 as int * PAGE_SIZE as int && p2 as int <= 32768,
            ;
            assert(cg.len() >= needed as int);
            assert(oldk.len() as int + 1 <= 0xffff_ffff) by (nonlinear_arith)
                requires
                    (oldk.len() as int + 1) * w64 as int + 32 <= cg.len() && w64 as int >= 8
                        && cg.len() <= 0x8000_0000 && oldk.len() as int >= 0,
            ;
            assert forall|t: int| 0 <= t < oldk.len() implies (#[trigger] oldk[t]).len()
                <= self.max_key_size as int && oldv[t].len() <= self.max_value_size as int by {}
        }
        let ghost mks = self.max_key_size;
        let ghost mvs = self.max_value_size;
        self.keys.insert(idx, kb);
        self.vals.insert(idx, vb);
        let ghost nk = self.key_seq();
        let ghost nv = self.val_seq();
        proof {
            assert(nk =~= oldk.insert(idx as int, kb@));
            assert(nv =~= oldv.insert(idx as int, vb@));
            assert forall|a: int| 0 <= a < oldk.len() implies #[trigger] oldk[a] == (if a
                < idx as int {
                nk[a]
            } else {
                nk[a + 1]
            }) && #[trigger] oldv[a] == (if a < idx as int {
                nv[a]
            } else {
                nv[a + 1]
            }) by {}
            assert forall|a: int, b: int| 0 <= a < b < nk.len() implies lex_lt(nk[a], nk[b]) by {
                let a0 = if a < idx as int {
                    a
                } else {
                    a - 1
                };
                let b0 = if b < idx as int {
                    b
                } else {
                    b - 1
                };
                if a == idx as int {
                    assert(nk[b] == oldk[b0]);
                } else if b == idx as int {
                    assert(nk[a] == oldk[a0]);
                } else {
                    assert(nk[a] == oldk[a0] && nk[b] == oldk[b0]);
                }
            }
            assert forall|t: int| 0 <= t < nk.len() implies (#[trigger] nk[t]).len()
                <= mks as int && nv[t].len() <= mvs as int by {
                if t != idx as int {
                    let t0 = if t < idx as int {
                        t
                    } else {
                        t - 1
                    };
                    assert(nk[t] == oldk[t0] && nv[t] == oldv[t0]);
                }
            }
        }
        let mut j: usize = idx;
        while j < n + 1
            invariant
                idx <= j <= n + 1,
                self.mem.inv(),
                self.max_key_size == old(self).spec_max_key_size(),
                self.max_value_size == old(self).spec_max_value_size(),
                self.max_key_size <= MAX_SIZE_BOUND,
                self.max_value_size <= MAX_SIZE_BOUND,
                self.mem.contents().len() == cg.len(),
                self.keys@.len() == n + 1,
                self.vals@.len() == n + 1,
                self.key_seq() == nk,
                self.val_seq() == nv,
                self.mem.contents().subrange(0, 4) == cg.subrange(0, 4),
                self.mem.contents().subrange(4, 8) == cg.subrange(4, 8),
                self.mem.contents().subrange(8, 12) == cg.subrange(8, 12),
                self.mem.contents().subrange(12, 20) == cg.subrange(12, 20),
                forall|t: int|
                    0 <= t < idx ==> slot_ok(
                        self.mem.contents(),
                        t,
                        #[trigger] nk[t],
                        nv[t],
                        self.max_key_size,
                        self.max_value_size,
                    ),
                forall|t: int|
                    idx <= t < j ==> slot_ok(
                        self.mem.contents(),
                        t,
                        #[trigger] nk[t],
                        nv[t],
                        self.max_key_size,
                        self.max_value_size,
                    ),
            decreases n + 1 - j,
        {
            proof {
                lemma_slot_offset_step(j as int, self.max_key_size, self.max_value_size);
                lemma_slot_offset_mono(0, j as int, self.max_key_size, self.max_value_size);
                lemma_slot_offset_mono(
                    j as int + 1,
                    n as int + 1,
                    self.max_key_size,
                    self.max_value_size,
                );
            }
            proof {
                assert(views_of(self.keys@)[j as int] == self.keys@[j as int]@);
                assert(views_of(self.vals@)[j as int] == self.vals@[j as int]@);
                assert(self.keys@[j as int]@ == nk[j as int]);
                assert(self.vals@[j as int]@ == nv[j as int]);
            }
            let ghost cb = self.mem.contents();
            store_slot(
                &mut self.mem,
                j as u64,
                self.max_key_size,
                self.max_value_size,
                &self.keys[j],
                &self.vals[j],
            );
            proof {
                let ca = self.mem.contents();
                let lo = slot_offset(j as int, self.max_key_size, self.max_value_size);
                let hi = slot_offset(j as int + 1, self.max_key_size, self.max_value_size);
                lemma_subrange_stable(cb, ca, lo, hi, 0, 4);
                lemma_subrange_stable(cb, ca, lo, hi, 4, 8);
                lemma_subrange_stable(cb, ca, lo, hi, 8, 12);
                lemma_subrange_stable(cb, ca, lo, hi, 12, 20);
                assert forall|t: int| 0 <= t < j implies slot_ok(
                    ca,
                    t,
                    #[trigger] nk[t],
                    nv[t],
                    self.max_key_size,
                    self.max_value_size,
                ) by {
                    lemma_slot_offset_step(t, self.max_key_size, self.max_value_size);
                    lemma_slot_offset_mono(0, t, self.max_key_size, self.max_value_size);
                    lemma_slot_offset_mono(
                        t + 1,
                        j as int,
                        self.max_key_size,
                        self.max_value_size,
                    );
                    lemma_slot_ok_stable(
                        cb,
                        ca,
                        lo,
                        hi,
                        t,
                        nk[t],
                        nv[t],
                        self.max_key_size,
                        self.max_value_size,
                    );
                }
            }
            j = j + 1;
        }
        let ghost cs = self.mem.contents();
        store_count(&mut self.mem, n as u64 + 1);
        proof {
            let cf = self.mem.contents();
            lemma_subrange_stable(cs, cf, 20, 28, 0, 4);
            lemma_subrange_stable(cs, cf, 20, 28, 4, 8);
            lemma_subrange_stable(cs, cf, 20, 28, 8, 12);
            lemma_subrange_stable(cs, cf, 20, 28, 12, 20);
            assert forall|t: int| 0 <= t < nk.len() implies slot_ok(
                cf,
                t,
                #[trigger] nk[t],
                nv[t],
                self.max_key_size,
                self.max_value_size,
            ) by {
                lemma_slot_offset_step(t, self.max_key_size, self.max_value_size);
                lemma_slot_offset_mono(0, t, self.max_key_size, self.max_value_size);
                lemma_slot_offset_mono(
                    t + 1,
                    nk.len() as int,
                    self.max_key_size,
                    self.max_value_size,
                );
                lemma_slot_ok_stable(
                    cs,
                    cf,
                    20,
                    28,
                    t,
                    nk[t],
                    nv[t],
                    self.max_key_size,
                    self.max_value_size,
                );
            }
            lemma_map_insert_at(oldk, oldv, idx as int, kb@, vb@);
            assert(region_inv(cf, nk, nv, self.max_key_size, self.max_value_size));
        }
        Ok(None)
    }

    /// Removes the entry stored under `key`, returning its decoded value.
    ///
    /// An absent key leaves the map unchanged and reports absence. A present
    /// entry whose stored bytes no longer decode is refused with
    /// `DecodeError` before anything is written, so a failed removal leaves
    /// the map exactly as it was.
    #[verifier::loop_isolation(false)]
    #[verifier::rlimit(100)]
    pub fn remove(&mut self, key: &K) -> (r: Result<Option<V>, MapError>)
        requires
            old(self).wf(),
        ensures
            final(self).wf(),
            final(self).spec_max_key_size() == old(self).spec_max_key_size(),
            final(self).spec_max_value_size() == old(self).spec_max_value_size(),
            final(self).mem_contents().len() == old(self).mem_contents().len(),
            match r {
                Ok(prev) => {
                    &&& key.encode_spec().len() <= old(self).spec_max_key_size() as int
                    &&& final(self).as_map() == old(self).as_map().remove(key.encode_spec())
                    &&& match prev {
                        None => !old(self).as_map().contains_key(key.encode_spec()) && final(self).key_seq() == old(self).key_seq() && final(self).mem_contents() == old(self).mem_contents(),
                        Some(pv) => old(self).as_map().contains_key(key.encode_spec()) && final(self).key_seq().len() + 1 == old(self).key_seq().len() && ((exists|w: V|
                            w.encode_spec() == old(self).as_map()[key.encode_spec()])
                            ==> pv.encode_spec() == old(self).as_map()[key.encode_spec()]),
                    }
                },
                Err(e) => {
                    &&& final(self).as_map() == old(self).as_map()
                    &&& final(self).key_seq() == old(self).key_seq()
                    &&& final(self).val_seq() == old(self).val_seq()
                    &&& final(self).mem_contents() == old(self).mem_contents()
                    &&& (e == MapError::KeyTooLarge || e == MapError::DecodeError)
                    &&& (e == MapError::KeyTooLarge <==> key.encode_spec().len() > old(self).spec_max_key_size() as int)
                    &&& e == MapError::DecodeError ==> old(self).as_map().contains_key(
                        key.encode_spec(),
                    ) && !(exists|w: V|
                        w.encode_spec() == old(self).as_map()[key.encode_spec()])
                },
            },
            key.encode_spec().len() <= old(self).spec_max_key_size() as int && (!old(self).as_map().contains_key(key.encode_spec()) || (exists|w: V|
                w.encode_spec() == old(self).as_map()[key.encode_spec()])) ==> r is Ok,
    {
        let kb: Vec<u8> = key.to_bytes();
        if kb.len() > self.max_key_size as usize {
            return Err(MapError::KeyTooLarge);
        }
        let (found, idx) = self.find_slot(&kb);
        proof {
            lemma_sorted_unique(self.key_seq());
        }
        if !found {
            proof {
                if self.as_map().contains_key(kb@) {
                    let j = choose|j: int|
                        0 <= j < self.key_seq().len() && self.key_seq()[j] == kb@;
                    lemma_lex_irrefl(kb@);
                }
            }
            return Ok(None);
        }
        proof {
            assert(self.key_seq().contains(kb@));
            lemma_lookup_at(self.key_seq(), self.val_seq(), idx as int, kb@);
            assert(self.as_map()[kb@] == self.val_seq()[idx as int]);
        }
        let prev: V = match V::from_bytes(self.vals[idx].as_slice()) {
            Ok(p) => p,
            Err(_) => {
                return Err(MapError::DecodeError);
            },
        };
        let ghost c0 = self.mem.contents();
        let ghost oldk = self.key_seq();
        let ghost oldv = self.val_seq();
        let ghost mks = self.max_key_size;
        let ghost mvs = self.max_value_size;
        let n: usize = self.keys.len();
        self.keys.remove(idx);
        self.vals.remove(idx);
        let ghost nk = self.key_seq();
        let ghost nv = self.val_seq();
        proof {
            assert(nk =~= oldk.remove(idx as int));
            assert(nv =~= oldv.remove(idx as int));
            assert forall|a: int| 0 <= a < nk.len() implies #[trigger] nk[a] == (if a
                < idx as int {
                oldk[a]
            } else {
                oldk[a + 1]
            }) && #[trigger] nv[a] == (if a < idx as int {
                oldv[a]
            } else {
                oldv[a + 1]
            }) by {}
            assert forall|a: int, b: int| 0 <= a < b < nk.len() implies lex_lt(nk[a], nk[b]) by {
                let a0 = if a < idx as int {
                    a
                } else {
                    a + 1
                };
                let b0 = if b < idx as int {
                    b
                } else {
                    b + 1
                };
                assert(nk[a] == oldk[a0] && nk[b] == oldk[b0]);
            }
            assert forall|t: int| 0 <= t < nk.len() implies (#[trigger] nk[t]).len()
                <= mks as int && nv[t].len() <= mvs as int by {
                let t0 = if t < idx as int {
                    t
                } else {
                    t + 1
                };
                assert(nk[t] == oldk[t0] && nv[t] == oldv[t0]);
            }
            assert forall|t: int| 0 <= t < idx implies slot_ok(c0, t, nk[t], nv[t], mks, mvs) by {
                assert(nk[t] == oldk[t] && nv[t] == oldv[t]);
            }
            lemma_slot_offset_mono(nk.len() as int, oldk.len() as int, mks, mvs);
        }
        let mut j: usize = idx;
        while j < n - 1
            invariant
                idx <= j <= n - 1,
                1 <= n,
                self.mem.inv(),
                self.max_key_size == old(self).spec_max_key_size(),
                self.max_value_size == old(self).spec_max_value_size(),
                self.max_key_size <= MAX_SIZE_BOUND,
                self.max_value_size <= MAX_SIZE_BOUND,
                self.mem.contents().len() == c0.len(),
                self.keys@.len() == n - 1,
                self.vals@.len() == n - 1,
                self.key_seq() == nk,
                self.val_seq() == nv,
                self.mem.contents().subrange(0, 4) == c0.subrange(0, 4),
                self.mem.contents().subrange(4, 8) == c0.subrange(4, 8),
                self.mem.contents().subrange(8, 12) == c0.subrange(8, 12),
                self.mem.contents().subrange(12, 20) == c0.subrange(12, 20),
                forall|t: int|
                    0 <= t < j ==> slot_ok(
                        self.mem.contents(),
                        t,
                        #[trigger] nk[t],
                        nv[t],
                        self.max_key_size,
                        self.max_value_size,
                    ),
            decreases n - 1 - j,
        {
            proof {
                lemma_slot_offset_step(j as int, self.max_key_size, self.max_value_size);
                lemma_slot_offset_mono(0, j as int, self.max_key_size, self.max_value_size);
                lemma_slot_offset_mono(
                    j as int + 1,
                    n as int,
                    self.max_key_size,
                    self.max_value_size,
                );
                assert(views_of(self.keys@)[j as int] == self.keys@[j as int]@);
                assert(views_of(self.vals@)[j as int] == self.vals@[j as int]@);
                assert(self.keys@[j as int]@ == nk[j as int]);
                assert(self.vals@[j as int]@ == nv[j as int]);
            }
            let ghost cb = self.mem.contents();
            store_slot(
                &mut self.mem,
                j as u64,
                self.max_key_size,
                self.max_value_size,
                &self.keys[j],
                &self.vals[j],
            );
            proof {
                let ca = self.mem.contents();
                let lo = slot_offset(j as int, self.max_key_size, self.max_value_size);
                let hi = slot_offset(j as int + 1, self.max_key_size, self.max_value_size);
                lemma_subrange_stable(cb, ca, lo, hi, 0, 4);
                lemma_subrange_stable(cb, ca, lo, hi, 4, 8);
                lemma_subrange_stable(cb, ca, lo, hi, 8, 12);
                lemma_subrange_stable(cb, ca, lo, hi, 12, 20);
                assert forall|t: int| 0 <= t < j implies slot_ok(
                    ca,
                    t,
                    #[trigger] nk[t],
                    nv[t],
                    self.max_key_size,
                    self.max_value_size,
                ) by {
                    lemma_slot_offset_step(t, self.max_key_size, self.max_value_size);
                    lemma_slot_offset_mono(0, t, self.max_key_size, self.max_value_size);
                    lemma_slot_offset_mono(
                        t + 1,
                        j as int,
                        self.max_key_size,
                        self.max_value_size,
                    );
                    lemma_slot_ok_stable(
                        cb,
                        ca,
                        lo,
                        hi,
                        t,
                        nk[t],
                        nv[t],
                        self.max_key_size,
                        self.max_value_size,
                    );
                }
            }
            j = j + 1;
        }
        let ghost cs = self.mem.contents();
        store_count(&mut self.mem, n as u64 - 1);
        proof {
            let cf = self.mem.contents();
            lemma_subrange_stable(cs, cf, 20, 28, 0, 4);
            lemma_subrange_stable(cs, cf, 20, 28, 4, 8);
            lemma_subrange_stable(cs, cf, 20, 28, 8, 12);
            lemma_subrange_stable(cs, cf, 20, 28, 12, 20);
            assert forall|t: int| 0 <= t < nk.len() implies slot_ok(
                cf,
                t,
                #[trigger] nk[t],
                nv[t],
                mks,
                mvs,
            ) by {
                lemma_slot_offset_step(t, mks, mvs);
                lemma_slot_offset_mono(0, t, mks, mvs);
                lemma_slot_offset_mono(t + 1, nk.len() as int, mks, mvs);
                lemma_slot_ok_stable(cs, cf, 20, 28, t, nk[t], nv[t], mks, mvs);
            }
            lemma_map_remove_at(oldk, oldv, idx as int);
            assert(region_inv(cf, nk, nv, mks, mvs));
        }
        Ok(Some(prev))
    }

    /// All stored keys in slot order; the order is strictly increasing, so
    /// iterating the entries yields each key exactly once, sorted.
    #[verifier::loop_isolation(false)]
    pub fn keys_sorted(&self) -> (r: Vec<Vec<u8>>)
        requires
            self.wf(),
        ensures
            r@.len() == self.key_seq().len(),
            forall|i: int| 0 <= i < r@.len() ==> (#[trigger] r@[i]@) == self.key_seq()[i],
            forall|i: int, j: int| 0 <= i < j < r@.len() ==> lex_lt(r@[i]@, r@[j]@),
    {
        let mut out: Vec<Vec<u8>> = Vec::new();
        let mut i: usize = 0;
        while i < self.keys.len()
            invariant
                out@.len() == i,
                0 <= i <= self.keys@.len(),
                forall|j: int| 0 <= j < i ==> (#[trigger] out@[j]@) == self.key_seq()[j],
            decreases self.keys@.len() - i,
        {
            out.push(slice_to_vec(self.keys[i].as_slice()));
            i = i + 1;
        }
        out
    }

    /// Releases the backing region, for instance to hand it to a later
    /// re-attachment; the formatted bytes stay as they are.
    pub fn into_memory(self) -> (r: M)
        requires
            self.wf(),
        ensures
            r.inv(),
            r.contents() == self.mem_contents(),
    {
        self.mem
    }

    /// The declared size bounds of a well-formed map are within the range
    /// that a fresh initialization accepts.
    pub proof fn lemma_wf_bounds(&self)
        requires
            self.wf(),
        ensures
            self.spec_max_key_size() <= MAX_SIZE_BOUND,
            self.spec_max_value_size() <= MAX_SIZE_BOUND,
    {
    }

    /// A well-formed map's backing region records exactly its entry
    /// columns under the durability contract.
    pub proof fn lemma_wf_region(&self)
        requires
            self.wf(),
        ensures
            region_inv(
                self.mem_contents(),
                self.key_seq(),
                self.val_seq(),
                self.spec_max_key_size(),
                self.spec_max_value_size(),
            ),
    {
    }

    /// The well-formedness of a map pins its key order: iterating all
    /// stored entries yields keys in strictly increasing byte order.
    pub proof fn law_iteration_sorted(&self)
        requires
            self.wf(),
        ensures
            sorted_strict(self.key_seq()),
            forall|i: int, j: int|
                0 <= i < j < self.key_seq().len() ==> lex_lt(
                    self.key_seq()[i],
                    self.key_seq()[j],
                ),
    {
    }

    /// Number of entries currently stored.
    pub fn len(&self) -> (r: u64)
        requires
            self.wf(),
        ensures
            r as int == self.key_seq().len(),
    {
        proof {
            self.mem.lemma_region_shape();
            lemma_slot_offset_mono(0, self.key_seq().len() as int, self.max_key_size, self.max_value_size);
        }
        self.keys.len() as u64
    }
}

} // verus!
