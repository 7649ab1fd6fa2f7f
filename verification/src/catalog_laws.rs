//! What the operations on the list of declared indexes do, said by the records
//! and by the bytes in which they are kept.
use vstd::prelude::*;
use vstd::utf8::{decode_utf8, encode_utf8, valid_utf8};

use crate::codec::{group_codec, lemma_u32_read_back, lemma_u64_read_back, u32_at, u64_at};
use crate::property_index_catalog::{
    as_building, byte_state, catalog_bytes, catalog_of, declared, keys_on, law_catalog_round_trip,
    law_recovery_is_of_the_committed_list, lemma_place, models, names_unique, of_tenant,
    place_of, reconciled, record_at, record_bytes, records_at, state_byte, text_at, with_state,
    IndexState, PropertyIndexRecord, RecordModel,
};

verus! {

/// What a record says is what its fields hold.
pub proof fn law_record_model(r: PropertyIndexRecord)
    ensures
        r@.name == r.name@,
        r@.tenant == r.tenant.0,
        r@.label == r.label.0,
        r@.property_key == r.property_key.0,
        r@.property_name == r.property_name@,
        r@.state == r.state,
{
}

/// The indexes on a label of a tenant are those of the records with that tenant
/// and that label: every one of them and no other, in the order of their
/// declaration, each with its key and its state.
pub proof fn law_indexes_on_a_label(s: Seq<RecordModel>, tenant: u64, label: u32)
    ensures
        keys_on(s, tenant, label) == s.filter(
            |r: RecordModel| r.tenant == tenant && r.label == label,
        ).map_values(|r: RecordModel| (r.property_key, r.state)),
    decreases s.len(),
{
    reveal(Seq::filter);
    let p = |r: RecordModel| r.tenant == tenant && r.label == label;
    let f = |r: RecordModel| (r.property_key, r.state);
    if s.len() > 0 {
        law_indexes_on_a_label(s.drop_last(), tenant, label);
    }
    assert(keys_on(s, tenant, label) =~= s.filter(p).map_values(f));
}

/// Each record with a tenant and a label is among the indexes on that label, and
/// nothing else is.
pub proof fn law_indexes_on_a_label_are_complete(
    s: Seq<RecordModel>,
    tenant: u64,
    label: u32,
    key: u32,
    state: IndexState,
)
    ensures
        keys_on(s, tenant, label).contains((key, state)) <==> exists|i: int|
            0 <= i < s.len() && (#[trigger] s[i]).tenant == tenant && s[i].label == label
                && s[i].property_key == key && s[i].state == state,
    decreases s.len(),
{
    if s.len() > 0 {
        let front = s.drop_last();
        let n = s.len() - 1;
        let before = keys_on(front, tenant, label);
        let after = keys_on(s, tenant, label);
        law_indexes_on_a_label_are_complete(front, tenant, label, key, state);
        if after.contains((key, state)) {
            let j = choose|j: int| 0 <= j < after.len() && after[j] == (key, state);
            if j < before.len() {
                assert(before[j] == (key, state));
                let i = choose|i: int|
                    0 <= i < front.len() && (#[trigger] front[i]).tenant == tenant && front[i].label
                        == label && front[i].property_key == key && front[i].state == state;
                assert(s[i].tenant == tenant);
            } else {
                assert(s[n].tenant == tenant);
            }
        }
        if exists|i: int|
            0 <= i < s.len() && (#[trigger] s[i]).tenant == tenant && s[i].label == label
                && s[i].property_key == key && s[i].state == state {
            let i = choose|i: int|
                0 <= i < s.len() && (#[trigger] s[i]).tenant == tenant && s[i].label == label
                    && s[i].property_key == key && s[i].state == state;
            if i < n {
                assert(front[i].tenant == tenant);
                let j = choose|j: int| 0 <= j < before.len() && before[j] == (key, state);
                assert(after[j] == (key, state));
            } else {
                assert(after[before.len() as int] == (key, state));
            }
        }
    }
}

/// The records of a tenant are those with its number: every one of them and no
/// other, and unchanged.
pub proof fn law_records_of_a_tenant(s: Seq<RecordModel>, tenant: u64, r: RecordModel)
    ensures
        of_tenant(s, tenant).contains(r) <==> s.contains(r) && r.tenant == tenant,
        of_tenant(s, tenant).len() == s.to_multiset().filter(
            |x: RecordModel| x.tenant == tenant,
        ).len(),
    decreases s.len(),
{
    reveal(Seq::filter);
    broadcast use vstd::seq_lib::group_to_multiset_ensures;
    broadcast use vstd::multiset::group_multiset_axioms;

    let p = |x: RecordModel| x.tenant == tenant;
    let all = s.to_multiset().filter(p);
    if s.len() > 0 {
        let front = s.drop_last();
        law_records_of_a_tenant(front, tenant, r);
        assert(s =~= front.push(s.last()));
        let before = of_tenant(front, tenant);
        let after = of_tenant(s, tenant);
        let rest = front.to_multiset().filter(p);
        assert(s.to_multiset() =~= front.to_multiset().insert(s.last()));
        if p(s.last()) {
            assert(all =~= rest.insert(s.last()));
            assert(after =~= before.push(s.last()));
            if before.contains(r) {
                let j = choose|j: int| 0 <= j < before.len() && before[j] == r;
                assert(after[j] == r);
            }
            if r == s.last() {
                assert(after[before.len() as int] == r);
            }
            if after.contains(r) {
                let j = choose|j: int| 0 <= j < after.len() && after[j] == r;
                if j < before.len() {
                    assert(before[j] == r);
                }
            }
        } else {
            assert(all =~= rest);
        }
        if front.contains(r) {
            let j = choose|j: int| 0 <= j < front.len() && front[j] == r;
            assert(s[j] == r);
        }
        if s.contains(r) {
            let j = choose|j: int| 0 <= j < s.len() && s[j] == r;
            if j < front.len() {
                assert(front[j] == r);
            }
        }
        assert(s[s.len() - 1] == s.last());
    } else {
        assert(s.to_multiset() =~= vstd::multiset::Multiset::empty());
        assert(all =~= vstd::multiset::Multiset::empty());
    }
}

/// A name is declared exactly where a record has it, and its place is that of the
/// first such record.
pub proof fn law_where_a_name_stands(s: Seq<RecordModel>, tenant: u64, name: Seq<char>, i: int)
    requires
        0 <= i < s.len(),
        s[i].tenant == tenant,
        s[i].name == name,
        forall|j: int| 0 <= j < i ==> !((#[trigger] s[j]).tenant == tenant && s[j].name == name),
    ensures
        declared(s, tenant, name),
        place_of(s, tenant, name) == i,
{
    lemma_place(s, tenant, name);
}

/// A name that no record has is not declared.
pub proof fn law_absent_name(s: Seq<RecordModel>, tenant: u64, name: Seq<char>)
    requires
        forall|j: int|
            0 <= j < s.len() ==> !((#[trigger] s[j]).tenant == tenant && s[j].name == name),
    ensures
        !declared(s, tenant, name),
{
    lemma_place(s, tenant, name);
}

/// What a declaration, a change of state and a recovery do to a record: the state
/// is all that changes.
pub proof fn law_only_the_state_changes(s: Seq<RecordModel>, i: int, j: int, state: IndexState)
    requires
        0 <= i < s.len(),
        0 <= j < s.len(),
    ensures
        ({
            let b = as_building(s[i]);
            &&& b.state is Building
            &&& b.name == s[i].name && b.tenant == s[i].tenant && b.label == s[i].label
            &&& b.property_key == s[i].property_key && b.property_name == s[i].property_name
        }),
        ({
            let t = with_state(s, i, state);
            &&& t.len() == s.len()
            &&& j != i ==> t[j] == s[j]
            &&& t[i].state == state
            &&& t[i].name == s[i].name && t[i].tenant == s[i].tenant && t[i].label == s[i].label
            &&& t[i].property_key == s[i].property_key
            &&& t[i].property_name == s[i].property_name
        }),
        reconciled(s) == s,
{
    assert(reconciled(s) =~= s);
}

/// The bytes of the states, and what other bytes are read as.
pub proof fn law_state_bytes(b: u8)
    ensures
        state_byte(IndexState::Building) == 0,
        state_byte(IndexState::Online) == 1,
        byte_state(b) == (if b == 1 {
            IndexState::Online
        } else {
            IndexState::Building
        }),
{
}

/// Where the fields of a record stand in its bytes.
pub proof fn law_record_layout(r: RecordModel)
    requires
        encode_utf8(r.name).len() <= u32::MAX,
        encode_utf8(r.property_name).len() <= u32::MAX,
    ensures
        ({
            let b = record_bytes(r);
            let n = encode_utf8(r.name).len() as int;
            let m = encode_utf8(r.property_name).len() as int;
            &&& b.len() == n + m + 25
            &&& u32_at(b, 0) == n
            &&& b.subrange(4, 4 + n) == encode_utf8(r.name)
            &&& u64_at(b, 4 + n) == r.tenant
            &&& u32_at(b, 12 + n) == r.label
            &&& u32_at(b, 16 + n) == r.property_key
            &&& u32_at(b, 20 + n) == m
            &&& b.subrange(24 + n, 24 + n + m) == encode_utf8(r.property_name)
            &&& b[24 + n + m] == (if r.state is Online {
                1u8
            } else {
                0u8
            })
        }),
{
    broadcast use group_codec;

    let b = record_bytes(r);
    let name = encode_utf8(r.name);
    let property_name = encode_utf8(r.property_name);
    let n = name.len() as int;
    let m = property_name.len() as int;
    assert(b.subrange(0, 4) =~= crate::codec::le32(n as u32));
    lemma_u32_read_back(b, 0, n as u32);
    assert(b.subrange(4, 4 + n) =~= name);
    assert(b.subrange(4 + n, 12 + n) =~= crate::codec::le64(r.tenant));
    lemma_u64_read_back(b, 4 + n, r.tenant);
    assert(b.subrange(12 + n, 16 + n) =~= crate::codec::le32(r.label));
    lemma_u32_read_back(b, 12 + n, r.label);
    assert(b.subrange(16 + n, 20 + n) =~= crate::codec::le32(r.property_key));
    lemma_u32_read_back(b, 16 + n, r.property_key);
    assert(b.subrange(20 + n, 24 + n) =~= crate::codec::le32(m as u32));
    lemma_u32_read_back(b, 20 + n, m as u32);
    assert(b.subrange(24 + n, 24 + n + m) =~= property_name);
}

/// The bytes of a list: the version, the number of records, and the records one
/// after the other.
pub proof fn law_catalog_layout(s: Seq<RecordModel>, r: RecordModel)
    requires
        s.len() < u32::MAX,
    ensures
        catalog_bytes(Seq::<RecordModel>::empty()).len() == 5,
        catalog_bytes(s)[0] == 1,
        u32_at(catalog_bytes(s), 1) == s.len(),
        catalog_bytes(s.push(r)).skip(5) == catalog_bytes(s).skip(5) + record_bytes(r),
{
    broadcast use group_codec;

    let b = catalog_bytes(s);
    let c = catalog_bytes(s.push(r));
    assert(b.subrange(1, 5) =~= crate::codec::le32(s.len() as u32));
    lemma_u32_read_back(b, 1, s.len() as u32);
    assert(s.push(r).drop_last() =~= s);
    assert(s.push(r).last() == r);
    assert(c.skip(5) =~= b.skip(5) + record_bytes(r));
}

/// A text is read where its length and all of it are there and it is UTF-8.
pub proof fn law_text_reading(b: Seq<u8>, at: int)
    requires
        0 <= at,
    ensures
        text_at(b, at) is Some <==> at + 4 <= b.len() && at + 4 + u32_at(b, at) <= b.len()
            && valid_utf8(b.subrange(at + 4, at + 4 + u32_at(b, at))),
        text_at(b, at) matches Some((text, end)) ==> {
            &&& end == at + 4 + u32_at(b, at)
            &&& text == decode_utf8(b.subrange(at + 4, end))
        },
{
}

/// A list is read whole or as empty: it has as many records as the bytes say, or
/// none.
pub proof fn law_catalog_is_read_whole(b: Seq<u8>)
    ensures
        catalog_of(b).len() == 0 || catalog_of(b).len() == u32_at(b, 1),
        b.len() < 5 || b[0] != 1 ==> catalog_of(b).len() == 0,
        b.len() >= 5 && b[0] == 1 && records_at(b, 5, u32_at(b, 1) as nat) is Some
            ==> catalog_of(b).len() == u32_at(b, 1),
{
    lemma_records_count(b, 5, u32_at(b, 1) as nat);
}

proof fn lemma_records_count(b: Seq<u8>, at: int, n: nat)
    ensures
        records_at(b, at, n) matches Some(s) ==> s.len() == n,
    decreases n,
{
    if n > 0 && record_at(b, at) is Some {
        lemma_records_count(b, record_at(b, at)->Some_0.1, (n - 1) as nat);
    }
}

/// A record that is cut short is not read: what is read ends within the bytes,
/// and where a name is not UTF-8 nothing is.
pub proof fn law_record_reading(b: Seq<u8>, at: int)
    requires
        0 <= at,
        record_at(b, at) is Some,
    ensures
        ({
            let (r, end) = record_at(b, at)->Some_0;
            let n = u32_at(b, at) as int;
            let m = u32_at(b, at + 20 + n) as int;
            &&& end == at + n + m + 25
            &&& end <= b.len()
            &&& r.name == decode_utf8(b.subrange(at + 4, at + 4 + n))
            &&& r.tenant == u64_at(b, at + 4 + n)
            &&& r.label == u32_at(b, at + 12 + n)
            &&& r.property_key == u32_at(b, at + 16 + n)
            &&& r.property_name == decode_utf8(b.subrange(at + 24 + n, at + 24 + n + m))
            &&& r.state is Online <==> b[end - 1] == 1
        }),
{
}

/// A list is read back as it was written, where the texts and their number fit the
/// fields that hold their lengths; recovery takes it up as it is.
pub proof fn law_kept_list_is_taken_up(s: Seq<RecordModel>)
    requires
        s.len() <= 0xFFFF_FFFF,
        forall|i: int|
            0 <= i < s.len() ==> encode_utf8((#[trigger] s[i]).name).len() <= 0xFFFF_FFFF
                && encode_utf8(s[i].property_name).len() <= 0xFFFF_FFFF,
    ensures
        catalog_of(catalog_bytes(s)) == s,
        reconciled(catalog_of(catalog_bytes(s))) == s,
{
    law_recovery_is_of_the_committed_list(s);
    law_catalog_round_trip(s);
}

/// What a list of records says is what each of them says.
pub proof fn law_list_model(s: Seq<PropertyIndexRecord>, i: int)
    requires
        0 <= i < s.len(),
    ensures
        models(s).len() == s.len(),
        models(s)[i] == s[i]@,
{
}

/// In a list with unique names a tenant and a name stand for one record.
pub proof fn law_names_tell_records_apart(s: Seq<RecordModel>, i: int, j: int)
    requires
        names_unique(s),
        0 <= i < s.len(),
        0 <= j < s.len(),
        s[i].tenant == s[j].tenant,
        s[i].name == s[j].name,
    ensures
        i == j,
{
    if i < j {
        assert(!(s[i].tenant == s[j].tenant && s[i].name == s[j].name));
    } else if j < i {
        assert(!(s[j].tenant == s[i].tenant && s[j].name == s[i].name));
    }
}

} // verus!
