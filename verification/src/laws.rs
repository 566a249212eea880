//! The library's stated laws, proved once over the same views the engine's
//! contracts speak of.

use vstd::prelude::*;

use crate::codec::lemma_le64_injective;
use crate::map::lemma_slot_determined;
use crate::map::region_inv;
use crate::map::slot_ok;
use crate::map::FixedSlotMap;
use crate::memory::Memory;
use crate::storable::Storable;

verus! {

/// Inserting a value and then reading the same key yields exactly the
/// inserted value: the key is present, its stored image is the inserted
/// value's image, and that image is decodable, so `get` returns a value
/// observably equal to the inserted one.
pub proof fn law_insert_then_get<V: Storable>(m: Map<Seq<u8>, Seq<u8>>, k: Seq<u8>, v: V)
    ensures
        m.insert(k, v.encode_spec()).contains_key(k),
        m.insert(k, v.encode_spec())[k] == v.encode_spec(),
        exists|w: V| w.encode_spec() == m.insert(k, v.encode_spec())[k],
{
    assert(v.encode_spec() == m.insert(k, v.encode_spec())[k]);
}

/// Overwrite semantics: a second insert under the same key replaces the
/// value rather than duplicating the entry — the previous value it reports
/// is the first one written, the value read afterwards is the second one,
/// and the map's domain does not change.
pub proof fn law_overwrite<V: Storable>(m: Map<Seq<u8>, Seq<u8>>, k: Seq<u8>, v1: V, v2: V)
    ensures
        m.insert(k, v1.encode_spec())[k] == v1.encode_spec(),
        exists|w: V| w.encode_spec() == m.insert(k, v1.encode_spec())[k],
        m.insert(k, v1.encode_spec()).insert(k, v2.encode_spec())[k] == v2.encode_spec(),
        m.insert(k, v1.encode_spec()).insert(k, v2.encode_spec()).dom() =~= m.insert(
            k,
            v1.encode_spec(),
        ).dom(),
{
    assert(v1.encode_spec() == m.insert(k, v1.encode_spec())[k]);
}

/// A key never inserted is absent, not an error: the empty map holds no
/// key, and inserting under other keys never makes it appear.
pub proof fn law_never_inserted(m: Map<Seq<u8>, Seq<u8>>, k: Seq<u8>, k2: Seq<u8>, v: Seq<u8>)
    requires
        !m.contains_key(k),
        k2 != k,
    ensures
        !Map::<Seq<u8>, Seq<u8>>::empty().contains_key(k),
        !m.insert(k2, v).contains_key(k),
{
}

/// Re-attaching recovers what was stored exactly: the bytes of a formatted
/// region determine the entry columns uniquely, so attaching to a region a
/// well-formed map left behind yields that map's entries again.
pub proof fn law_reattach_recovers(
    contents: Seq<u8>,
    ks1: Seq<Seq<u8>>,
    vs1: Seq<Seq<u8>>,
    ks2: Seq<Seq<u8>>,
    vs2: Seq<Seq<u8>>,
    mks: u32,
    mvs: u32,
)
    requires
        region_inv(contents, ks1, vs1, mks, mvs),
        region_inv(contents, ks2, vs2, mks, mvs),
    ensures
        ks1 == ks2,
        vs1 == vs2,
{
    lemma_le64_injective(ks1.len() as u64, ks2.len() as u64);
    assert(ks1.len() == ks2.len());
    assert forall|i: int| 0 <= i < ks1.len() implies ks1[i] == ks2[i] && vs1[i] == vs2[i] by {
        assert(slot_ok(contents, i, ks1[i], vs1[i], mks, mvs));
        assert(slot_ok(contents, i, ks2[i], vs2[i], mks, mvs));
        lemma_slot_determined(contents, i, ks1[i], vs1[i], ks2[i], vs2[i], mks, mvs);
    }
    assert(ks1 =~= ks2);
    assert(vs1 =~= vs2);
}

/// The same law at the level of map states: two well-formed maps attached
/// to the same region bytes under the same declared sizes hold exactly the
/// same entries — so an engine that re-attaches where another left off
/// recovers its predecessor's state.
pub proof fn law_reattach_recovers_state<M: Memory, K: Storable, V: Storable>(
    m1: &FixedSlotMap<M, K, V>,
    m2: &FixedSlotMap<M, K, V>,
)
    requires
        m1.wf(),
        m2.wf(),
        m1.mem_contents() == m2.mem_contents(),
        m1.spec_max_key_size() == m2.spec_max_key_size(),
        m1.spec_max_value_size() == m2.spec_max_value_size(),
    ensures
        m1.key_seq() == m2.key_seq(),
        m1.val_seq() == m2.val_seq(),
        m1.as_map() == m2.as_map(),
{
    m1.lemma_wf_region();
    m2.lemma_wf_region();
    law_reattach_recovers(
        m1.mem_contents(),
        m1.key_seq(),
        m1.val_seq(),
        m2.key_seq(),
        m2.val_seq(),
        m1.spec_max_key_size(),
        m1.spec_max_value_size(),
    );
}

} // verus!
