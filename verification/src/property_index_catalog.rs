//! The list of declared property indexes, and how it is kept.
use vstd::prelude::*;
use vstd::utf8::{
    decode_utf8, encode_utf8, encode_utf8_decode_utf8, encode_utf8_valid_utf8, valid_utf8,
};

use crate::catalog_laws::law_indexes_on_a_label;
use crate::codec::{
    get_u32, get_u64, group_codec, le32, le64, lemma_u32_read_back, lemma_u64_read_back, push_bytes,
    push_u32, push_u64, u32_at, u64_at,
};
use crate::ids::{LabelId, Lsn, StringId, TenantId};
use crate::prop_block::read_str;

pub use crate::secondary_handle::IndexState;

verus! {

/// The key of the system record that keeps the list.
pub const PROPERTY_INDEX_CATALOG_KEY: u64 = 0x2000_0000_0000_0000;

/// The version of the list's form; a list of another version is read as empty.
pub const CATALOG_FORMAT_VERSION: u8 = 1;

/// The byte of an index that is being built.
pub const STATE_BUILDING: u8 = 0;

/// The byte of an index that is complete.
pub const STATE_ONLINE: u8 = 1;

/// A declared index.
#[derive(Clone, Debug, PartialEq, Eq)]
pub struct PropertyIndexRecord {
    /// The name of the index.
    pub name: String,
    /// The tenant that owns it.
    pub tenant: TenantId,
    /// The label of the nodes in it.
    pub label: LabelId,
    /// The number of the property's name.
    pub property_key: StringId,
    /// The property's name, to be shown.
    pub property_name: String,
    /// How far the index has come.
    pub state: IndexState,
}

/// What a record of a declared index says.
pub struct RecordModel {
    /// The name of the index.
    pub name: Seq<char>,
    /// The tenant that owns it.
    pub tenant: u64,
    /// The label of the nodes in it.
    pub label: u32,
    /// The number of the property's name.
    pub property_key: u32,
    /// The property's name.
    pub property_name: Seq<char>,
    /// How far the index has come.
    pub state: IndexState,
}

impl View for PropertyIndexRecord {
    type V = RecordModel;

    open spec fn view(&self) -> RecordModel {
        RecordModel {
            name: self.name@,
            tenant: self.tenant.0,
            label: self.label.0,
            property_key: self.property_key.0,
            property_name: self.property_name@,
            state: self.state,
        }
    }
}

/// What a list of records says.
pub open spec fn models(s: Seq<PropertyIndexRecord>) -> Seq<RecordModel> {
    Seq::new(s.len(), |i: int| s[i]@)
}

/// What a declaration came to.
#[derive(Clone, Copy, Debug, PartialEq, Eq, Structural)]
pub enum CreateOutcome {
    /// The index is new. It has to be built.
    Created,
    /// There was an index of this name already.
    AlreadyExists,
}

/// Why a change of the list failed. `E` is the failure of a commit.
#[derive(Debug)]
#[non_exhaustive]
pub enum PropertyIndexCatalogError<E> {
    /// There is an index of this name already.
    AlreadyExists {
        /// The name.
        name: String,
    },
    /// There is no index of this name.
    NotFound {
        /// The name.
        name: String,
    },
    /// The list could not be kept.
    Commit(E),
}

// ---- the form in which the list is kept -----------------------------------

/// The byte of a state.
pub open spec fn state_byte(s: IndexState) -> u8 {
    match s {
        IndexState::Building => STATE_BUILDING,
        IndexState::Online => STATE_ONLINE,
    }
}

/// The state of a byte: only the byte of a complete index is read as one.
pub open spec fn byte_state(b: u8) -> IndexState {
    if b == STATE_ONLINE {
        IndexState::Online
    } else {
        IndexState::Building
    }
}

/// The length of a text as it is written.
pub open spec fn written_len(n: int) -> u32 {
    (n % 0x1_0000_0000) as u32
}

/// The bytes of a text: its length, then the text.
pub open spec fn text_bytes(s: Seq<char>) -> Seq<u8> {
    le32(written_len(encode_utf8(s).len() as int)) + encode_utf8(s)
}

/// The bytes of a record.
pub open spec fn record_bytes(r: RecordModel) -> Seq<u8> {
    text_bytes(r.name) + le64(r.tenant) + le32(r.label) + le32(r.property_key) + text_bytes(
        r.property_name,
    ) + seq![state_byte(r.state)]
}

/// The bytes of the records of a list.
pub open spec fn records_bytes(s: Seq<RecordModel>) -> Seq<u8>
    decreases s.len(),
{
    if s.len() == 0 {
        Seq::empty()
    } else {
        records_bytes(s.drop_last()) + record_bytes(s.last())
    }
}

/// The bytes of a list: version, number of records, records.
pub open spec fn catalog_bytes(s: Seq<RecordModel>) -> Seq<u8> {
    seq![CATALOG_FORMAT_VERSION] + le32(written_len(s.len() as int)) + records_bytes(s)
}

/// The text at `at`, and where it ends.
pub open spec fn text_at(b: Seq<u8>, at: int) -> Option<(Seq<char>, int)> {
    if at + 4 > b.len() {
        None
    } else {
        let end = at + 4 + u32_at(b, at);
        if end > b.len() || !valid_utf8(b.subrange(at + 4, end)) {
            None
        } else {
            Some((decode_utf8(b.subrange(at + 4, end)), end))
        }
    }
}

/// The record at `at`, and where it ends.
pub open spec fn record_at(b: Seq<u8>, at: int) -> Option<(RecordModel, int)> {
    match text_at(b, at) {
        None => None,
        Some((name, p)) => if p + 16 > b.len() {
            None
        } else {
            match text_at(b, p + 16) {
                None => None,
                Some((property_name, q)) => if q >= b.len() {
                    None
                } else {
                    Some(
                        (
                            RecordModel {
                                name,
                                tenant: u64_at(b, p),
                                label: u32_at(b, p + 8),
                                property_key: u32_at(b, p + 12),
                                property_name,
                                state: byte_state(b[q]),
                            },
                            q + 1,
                        ),
                    )
                },
            }
        },
    }
}

/// The `n` records from `at` on.
pub open spec fn records_at(b: Seq<u8>, at: int, n: nat) -> Option<Seq<RecordModel>>
    decreases n,
{
    if n == 0 {
        Some(Seq::empty())
    } else {
        match record_at(b, at) {
            None => None,
            Some((r, end)) => match records_at(b, end, (n - 1) as nat) {
                None => None,
                Some(rest) => Some(seq![r] + rest),
            },
        }
    }
}

/// The list that bytes hold: none where they are damaged or of another
/// version.
pub open spec fn catalog_of(b: Seq<u8>) -> Seq<RecordModel> {
    if b.len() < 5 || b[0] != CATALOG_FORMAT_VERSION {
        Seq::empty()
    } else {
        match records_at(b, 5, u32_at(b, 1) as nat) {
            None => Seq::empty(),
            Some(s) => s,
        }
    }
}

/// The lengths in the list fit the fields that hold them.
pub open spec fn lengths_fit(s: Seq<RecordModel>) -> bool {
    &&& s.len() <= u32::MAX
    &&& forall|i: int|
        0 <= i < s.len() ==> encode_utf8((#[trigger] s[i]).name).len() <= u32::MAX && encode_utf8(
            s[i].property_name,
        ).len() <= u32::MAX
}

proof fn lemma_text(b: Seq<u8>, at: int, s: Seq<char>)
    requires
        encode_utf8(s).len() <= u32::MAX,
        0 <= at,
        at + text_bytes(s).len() <= b.len(),
        forall|i: int| 0 <= i < text_bytes(s).len() ==> #[trigger] b[at + i] == text_bytes(s)[i],
    ensures
        text_at(b, at) == Some((s, at + text_bytes(s).len())),
        text_bytes(s).len() == 4 + encode_utf8(s).len(),
{
    broadcast use group_codec;

    let t = text_bytes(s);
    let raw = encode_utf8(s);
    let n = raw.len() as u32;
    assert(written_len(raw.len() as int) == n);
    assert forall|j: int| 0 <= j < 4 implies #[trigger] b[at + j] == le32(n)[j] by {
        assert(b[at + j] == t[j]);
    }
    lemma_u32_read_back(b, at, n);
    let part = b.subrange(at + 4, at + 4 + raw.len());
    assert(part =~= raw) by {
        assert forall|j: int| 0 <= j < raw.len() implies part[j] == raw[j] by {
            assert(b[at + (4 + j)] == t[4 + j]);
        }
    }
    encode_utf8_valid_utf8(s);
    encode_utf8_decode_utf8(s);
}

proof fn lemma_record(b: Seq<u8>, at: int, r: RecordModel)
    requires
        encode_utf8(r.name).len() <= u32::MAX,
        encode_utf8(r.property_name).len() <= u32::MAX,
        0 <= at,
        at + record_bytes(r).len() <= b.len(),
        forall|i: int|
            0 <= i < record_bytes(r).len() ==> #[trigger] b[at + i] == record_bytes(r)[i],
    ensures
        record_at(b, at) == Some((r, at + record_bytes(r).len())),
{
    broadcast use group_codec;

    let all = record_bytes(r);
    let name = text_bytes(r.name);
    let prop = text_bytes(r.property_name);
    assert forall|i: int| 0 <= i < name.len() implies #[trigger] b[at + i] == name[i] by {
        assert(b[at + i] == all[i]);
    }
    lemma_text(b, at, r.name);
    let p = at + name.len();
    assert forall|j: int| 0 <= j < 8 implies #[trigger] b[p + j] == le64(r.tenant)[j] by {
        assert(b[at + (name.len() + j)] == all[name.len() + j]);
    }
    lemma_u64_read_back(b, p, r.tenant);
    assert forall|j: int| 0 <= j < 4 implies #[trigger] b[(p + 8) + j] == le32(r.label)[j] by {
        assert(b[at + (name.len() + 8 + j)] == all[name.len() + 8 + j]);
    }
    lemma_u32_read_back(b, p + 8, r.label);
    assert forall|j: int| 0 <= j < 4 implies #[trigger] b[(p + 12) + j] == le32(
        r.property_key,
    )[j] by {
        assert(b[at + (name.len() + 12 + j)] == all[name.len() + 12 + j]);
    }
    lemma_u32_read_back(b, p + 12, r.property_key);
    assert forall|i: int| 0 <= i < prop.len() implies #[trigger] b[(p + 16) + i] == prop[i] by {
        assert(b[at + (name.len() + 16 + i)] == all[name.len() + 16 + i]);
    }
    lemma_text(b, p + 16, r.property_name);
    let q = p + 16 + prop.len();
    let last: int = name.len() as int + 16 + prop.len() as int;
    assert(b[at + last] == all[last]);
    assert(b[q] == state_byte(r.state));
}

/// The bytes of a list are those of its first record and of the rest.
proof fn lemma_records_front(s: Seq<RecordModel>)
    requires
        s.len() > 0,
    ensures
        records_bytes(s) == record_bytes(s[0]) + records_bytes(s.drop_first()),
    decreases s.len(),
{
    if s.len() == 1 {
        assert(s.drop_last() =~= Seq::<RecordModel>::empty());
        assert(s.drop_first() =~= Seq::<RecordModel>::empty());
        assert(records_bytes(s) =~= record_bytes(s[0]) + records_bytes(s.drop_first()));
    } else {
        lemma_records_front(s.drop_last());
        assert(s.drop_last().drop_first() =~= s.drop_first().drop_last());
        assert(records_bytes(s) =~= record_bytes(s[0]) + records_bytes(s.drop_first()));
    }
}

proof fn lemma_records(b: Seq<u8>, at: int, s: Seq<RecordModel>)
    requires
        lengths_fit(s),
        0 <= at,
        at + records_bytes(s).len() <= b.len(),
        forall|i: int|
            0 <= i < records_bytes(s).len() ==> #[trigger] b[at + i] == records_bytes(s)[i],
    ensures
        records_at(b, at, s.len()) == Some(s),
    decreases s.len(),
{
    if s.len() > 0 {
        lemma_records_front(s);
        let all = records_bytes(s);
        let first = record_bytes(s[0]);
        let rest = s.drop_first();
        assert forall|i: int| 0 <= i < first.len() implies #[trigger] b[at + i] == first[i] by {
            assert(b[at + i] == all[i]);
        }
        assert(encode_utf8(s[0].name).len() <= u32::MAX);
        lemma_record(b, at, s[0]);
        let p = at + first.len();
        assert forall|i: int| 0 <= i < records_bytes(rest).len() implies #[trigger] b[p + i]
            == records_bytes(rest)[i] by {
            assert(b[at + (first.len() + i)] == all[first.len() + i]);
        }
        assert forall|i: int| 0 <= i < rest.len() implies encode_utf8((#[trigger] rest[i]).name).len()
            <= u32::MAX && encode_utf8(rest[i].property_name).len() <= u32::MAX by {
            assert(rest[i] == s[i + 1]);
        }
        lemma_records(b, p, rest);
        assert(seq![s[0]] + rest =~= s);
    } else {
        assert(s =~= Seq::<RecordModel>::empty());
    }
}

/// A list is read back as it was written.
pub proof fn law_catalog_round_trip(s: Seq<RecordModel>)
    requires
        lengths_fit(s),
    ensures
        catalog_of(catalog_bytes(s)) == s,
{
    broadcast use group_codec;

    let b = catalog_bytes(s);
    let n = s.len() as u32;
    assert(written_len(s.len() as int) == n);
    assert forall|j: int| 0 <= j < 4 implies #[trigger] b[1 + j] == le32(n)[j] by {}
    lemma_u32_read_back(b, 1, n);
    assert forall|i: int| 0 <= i < records_bytes(s).len() implies #[trigger] b[5 + i]
        == records_bytes(s)[i] by {}
    lemma_records(b, 5, s);
}

// ---- what is done with the list -------------------------------------------

/// The place of the first record with this tenant and name; the length of the
/// list where there is none.
pub open spec fn place_of(s: Seq<RecordModel>, tenant: u64, name: Seq<char>) -> int
    decreases s.len(),
{
    if s.len() == 0 {
        0
    } else {
        let p = place_of(s.drop_last(), tenant, name);
        if p < s.len() - 1 {
            p
        } else if s.last().tenant == tenant && s.last().name == name {
            s.len() - 1
        } else {
            s.len() as int
        }
    }
}

/// Whether there is a record with this tenant and name.
pub open spec fn declared(s: Seq<RecordModel>, tenant: u64, name: Seq<char>) -> bool {
    place_of(s, tenant, name) < s.len()
}

/// No two records have one tenant and one name.
pub open spec fn names_unique(s: Seq<RecordModel>) -> bool {
    forall|i: int, j: int|
        0 <= i < j < s.len() ==> !((#[trigger] s[i]).tenant == (#[trigger] s[j]).tenant && s[i].name
            == s[j].name)
}

/// What the place of a name says of the list.
pub proof fn lemma_place(s: Seq<RecordModel>, tenant: u64, name: Seq<char>)
    ensures
        0 <= place_of(s, tenant, name) <= s.len(),
        forall|i: int|
            0 <= i < place_of(s, tenant, name) ==> !((#[trigger] s[i]).tenant == tenant
                && s[i].name == name),
        place_of(s, tenant, name) < s.len() ==> s[place_of(s, tenant, name)].tenant == tenant
            && s[place_of(s, tenant, name)].name == name,
    decreases s.len(),
{
    if s.len() > 0 {
        let t = s.drop_last();
        lemma_place(t, tenant, name);
        let p = place_of(s, tenant, name);
        assert forall|i: int| 0 <= i < p implies !((#[trigger] s[i]).tenant == tenant && s[i].name
            == name) by {
            if i < t.len() {
                assert(t[i] == s[i]);
            }
        }
        if p < t.len() {
            assert(t[p] == s[p]);
        }
    }
}

/// The place of a name is the only first one.
proof fn lemma_place_is(s: Seq<RecordModel>, tenant: u64, name: Seq<char>, p: int)
    requires
        0 <= p <= s.len(),
        forall|i: int| 0 <= i < p ==> !((#[trigger] s[i]).tenant == tenant && s[i].name == name),
        p < s.len() ==> s[p].tenant == tenant && s[p].name == name,
    ensures
        place_of(s, tenant, name) == p,
{
    lemma_place(s, tenant, name);
}

/// A record as it is declared: its index is yet to be built.
pub open spec fn as_building(r: RecordModel) -> RecordModel {
    RecordModel { state: IndexState::Building, ..r }
}

/// A list with the state of one record changed.
pub open spec fn with_state(s: Seq<RecordModel>, i: int, state: IndexState) -> Seq<RecordModel> {
    s.update(i, RecordModel { state, ..s[i] })
}

/// A list after recovery: an index that is not complete is to be built.
pub open spec fn reconciled(s: Seq<RecordModel>) -> Seq<RecordModel> {
    Seq::new(
        s.len(),
        |i: int|
            if s[i].state is Online {
                s[i]
            } else {
                as_building(s[i])
            },
    )
}

/// The records of a tenant.
pub open spec fn of_tenant(s: Seq<RecordModel>, tenant: u64) -> Seq<RecordModel> {
    s.filter(|r: RecordModel| r.tenant == tenant)
}

/// The property keys, with their states, that are indexed for a label.
pub open spec fn keys_on(s: Seq<RecordModel>, tenant: u64, label: u32) -> Seq<(u32, IndexState)>
    decreases s.len(),
{
    if s.len() == 0 {
        Seq::empty()
    } else {
        let front = keys_on(s.drop_last(), tenant, label);
        if s.last().tenant == tenant && s.last().label == label {
            front.push((s.last().property_key, s.last().state))
        } else {
            front
        }
    }
}

/// A declaration keeps the names of a tenant distinct.
pub proof fn law_declaration_keeps_names_unique(s: Seq<RecordModel>, r: RecordModel)
    requires
        names_unique(s),
        !declared(s, r.tenant, r.name),
    ensures
        names_unique(s.push(as_building(r))),
        declared(s.push(as_building(r)), r.tenant, r.name),
{
    lemma_place(s, r.tenant, r.name);
    let t = s.push(as_building(r));
    lemma_place(t, r.tenant, r.name);
    assert(t[s.len() as int].name == r.name);
    assert forall|i: int, j: int| 0 <= i < j < t.len() implies !((#[trigger] t[i]).tenant == (
    #[trigger] t[j]).tenant && t[i].name == t[j].name) by {
        if j < s.len() {
            assert(t[i] == s[i] && t[j] == s[j]);
        } else {
            assert(t[i] == s[i]);
        }
    }
}

/// Recovery brings back the list that was committed last, with the states that
/// it had: an index whose completion was never committed is to be built, and a
/// complete one stays complete.
pub proof fn law_recovery_is_of_the_committed_list(s: Seq<RecordModel>)
    requires
        lengths_fit(s),
    ensures
        reconciled(catalog_of(catalog_bytes(s))) == s,
{
    law_catalog_round_trip(s);
    assert(reconciled(s) =~= s);
}

/// Recovery never takes an index for complete unless the byte that was kept
/// says so.
pub proof fn law_recovery_never_promotes(b: Seq<u8>, at: int)
    requires
        record_at(b, at) is Some,
    ensures
        ({
            let (r, end) = record_at(b, at)->Some_0;
            r.state is Online <==> b[end - 1] == STATE_ONLINE
        }),
{
}

// ---- writing and reading --------------------------------------------------

fn push_text(out: &mut Vec<u8>, text: &str)
    ensures
        final(out)@ == old(out)@ + text_bytes(text@),
{
    let raw = text.as_bytes();
    let n: u64 = raw.len() as u64;
    assert(raw.len() == raw@.len());
    push_u32(out, (n % 0x1_0000_0000) as u32);
    push_bytes(out, raw);
    assert(out@ =~= old(out)@ + text_bytes(text@));
}

/// The bytes in which a list is kept.
pub fn encode_catalog(records: &[PropertyIndexRecord]) -> (out: Vec<u8>)
    ensures
        out@ == catalog_bytes(models(records@)),
{
    let ghost all = models(records@);
    let mut out: Vec<u8> = Vec::new();
    out.push(CATALOG_FORMAT_VERSION);
    let n: u64 = records.len() as u64;
    push_u32(&mut out, (n % 0x1_0000_0000) as u32);
    let ghost head = seq![CATALOG_FORMAT_VERSION] + le32(written_len(all.len() as int));
    let mut i: usize = 0;
    proof {
        assert(all.take(0) =~= Seq::<RecordModel>::empty());
        assert(out@ =~= head + records_bytes(all.take(0)));
    }
    while i < records.len()
        invariant
            i <= records@.len(),
            all == models(records@),
            out@ == head + records_bytes(all.take(i as int)),
        decreases records@.len() - i,
    {
        let r = &records[i];
        let ghost before = out@;
        push_text(&mut out, r.name.as_str());
        push_u64(&mut out, r.tenant.0);
        push_u32(&mut out, r.label.0);
        push_u32(&mut out, r.property_key.0);
        push_text(&mut out, r.property_name.as_str());
        out.push(
            match r.state {
                IndexState::Building => STATE_BUILDING,
                IndexState::Online => STATE_ONLINE,
            },
        );
        proof {
            assert(out@ =~= before + record_bytes(all[i as int]));
            assert(all.take(i + 1).drop_last() =~= all.take(i as int));
            assert(all.take(i + 1).last() == all[i as int]);
            assert(out@ =~= head + records_bytes(all.take(i + 1)));
        }
        i += 1;
    }
    assert(all.take(i as int) =~= all);
    out
}

fn take_text(bytes: &[u8], at: usize) -> (r: Option<(String, usize)>)
    requires
        at <= bytes@.len(),
    ensures
        match r {
            Some((s, end)) => text_at(bytes@, at as int) == Some((s@, end as int)) && end
                <= bytes@.len(),
            None => text_at(bytes@, at as int) is None,
        },
{
    assert(bytes.len() == bytes@.len());
    if bytes.len() - at < 4 {
        return None;
    }
    let len: u64 = get_u32(bytes, at) as u64;
    let from: usize = at + 4;
    if ((bytes.len() - from) as u64) < len {
        return None;
    }
    let end: usize = from + len as usize;
    let raw = vstd::slice::slice_subrange(bytes, from, end);
    match read_str(raw) {
        None => None,
        Some(s) => Some((s.to_owned(), end)),
    }
}

fn take_record(bytes: &[u8], at: usize) -> (r: Option<(PropertyIndexRecord, usize)>)
    requires
        at <= bytes@.len(),
    ensures
        match r {
            Some((rec, end)) => record_at(bytes@, at as int) == Some((rec@, end as int)) && end
                <= bytes@.len(),
            None => record_at(bytes@, at as int) is None,
        },
{
    assert(bytes.len() == bytes@.len());
    let (name, p) = match take_text(bytes, at) {
        None => {
            return None;
        },
        Some(t) => t,
    };
    if bytes.len() - p < 16 {
        return None;
    }
    let tenant: u64 = get_u64(bytes, p);
    let label: u32 = get_u32(bytes, p + 8);
    let property_key: u32 = get_u32(bytes, p + 12);
    let (property_name, q) = match take_text(bytes, p + 16) {
        None => {
            return None;
        },
        Some(t) => t,
    };
    if q >= bytes.len() {
        return None;
    }
    let state = if bytes[q] == STATE_ONLINE {
        IndexState::Online
    } else {
        IndexState::Building
    };
    Some(
        (
            PropertyIndexRecord {
                name,
                tenant: TenantId(tenant),
                label: LabelId(label),
                property_key: StringId(property_key),
                property_name,
                state,
            },
            q + 1,
        ),
    )
}

/// The list that bytes hold: none where they are damaged or of another
/// version.
pub fn decode_catalog(bytes: &[u8]) -> (out: Vec<PropertyIndexRecord>)
    ensures
        models(out@) == catalog_of(bytes@),
{
    let mut out: Vec<PropertyIndexRecord> = Vec::new();
    assert(models(out@) =~= Seq::<RecordModel>::empty());
    if bytes.len() < 5 || bytes[0] != CATALOG_FORMAT_VERSION {
        return out;
    }
    let count: u32 = get_u32(bytes, 1);
    let mut at: usize = 5;
    let mut i: u32 = 0;
    let ghost want = records_at(bytes@, 5, count as nat);
    assert(match records_at(bytes@, 5, count as nat) {
        None => want is None,
        Some(rest) => want == Some(models(out@) + rest),
    }) by {
        if let Some(rest) = want {
            assert(models(out@) + rest =~= rest);
        }
    }
    while i < count
        invariant
            i <= count,
            at <= bytes@.len(),
            bytes@.len() >= 5,
            bytes@[0] == CATALOG_FORMAT_VERSION,
            count == u32_at(bytes@, 1),
            want == records_at(bytes@, 5, count as nat),
            match records_at(bytes@, at as int, (count - i) as nat) {
                None => want is None,
                Some(rest) => want == Some(models(out@) + rest),
            },
        decreases count - i,
    {
        match take_record(bytes, at) {
            None => {
                let none: Vec<PropertyIndexRecord> = Vec::new();
                assert(models(none@) =~= Seq::<RecordModel>::empty());
                return none;
            },
            Some((rec, end)) => {
                let ghost before = models(out@);
                let ghost m = rec@;
                out.push(rec);
                proof {
                    assert(models(out@) =~= before.push(m));
                    match records_at(bytes@, end as int, (count - i - 1) as nat) {
                        None => {},
                        Some(rest) => {
                            assert(before + (seq![m] + rest) =~= models(out@) + rest);
                        },
                    }
                }
                at = end;
            },
        }
        i += 1;
    }
    proof {
        assert(models(out@) + Seq::<RecordModel>::empty() =~= models(out@));
    }
    out
}

/// The declared property indexes.
#[derive(Debug)]
pub struct PropertyIndexCatalog {
    /// The records, in the order of their declaration.
    pub records: Vec<PropertyIndexRecord>,
}

impl View for PropertyIndexCatalog {
    type V = Seq<RecordModel>;

    open spec fn view(&self) -> Seq<RecordModel> {
        models(self.records@)
    }
}

/// A record that says the same.
fn copy_record(r: &PropertyIndexRecord) -> (c: PropertyIndexRecord)
    ensures
        c@ == r@,
{
    PropertyIndexRecord {
        name: r.name.clone(),
        tenant: r.tenant,
        label: r.label,
        property_key: r.property_key,
        property_name: r.property_name.clone(),
        state: r.state,
    }
}

impl PropertyIndexCatalog {
    /// An empty list.
    pub fn new() -> (c: PropertyIndexCatalog)
        ensures
            c@ == Seq::<RecordModel>::empty(),
    {
        let c = PropertyIndexCatalog { records: Vec::new() };
        assert(c@ =~= Seq::<RecordModel>::empty());
        c
    }

    /// Takes up the list as it was kept. An index that is not complete is to be
    /// built.
    pub fn recover(&mut self, value: Option<Vec<u8>>, recovered_lsn: Lsn)
        ensures
            final(self)@ == match value {
                Some(b) => reconciled(catalog_of(b@)),
                None => Seq::<RecordModel>::empty(),
            },
    {
        let mut records = match value {
            Some(b) => decode_catalog(b.as_slice()),
            None => Vec::new(),
        };
        let ghost before = models(records@);
        PropertyIndexCatalog::reconcile_recovered_states(&mut records);
        self.records = records;
        proof {
            if value is None {
                assert(self@ =~= Seq::<RecordModel>::empty());
            }
        }
    }

    /// Takes every index that is not complete back to where it is to be built.
    pub fn reconcile_recovered_states(records: &mut Vec<PropertyIndexRecord>)
        ensures
            models(final(records)@) == reconciled(models(old(records)@)),
    {
        let ghost before = models(records@);
        let mut i: usize = 0;
        while i < records.len()
            invariant
                i <= records@.len(),
                records@.len() == before.len(),
                forall|j: int| 0 <= j < i ==> #[trigger] records@[j]@ == reconciled(before)[j],
                forall|j: int| i <= j < records@.len() ==> #[trigger] records@[j]@ == before[j],
            decreases records@.len() - i,
        {
            if records[i].state != IndexState::Online {
                records[i].state = IndexState::Building;
            }
            i += 1;
        }
        assert(models(records@) =~= reconciled(before));
    }

    /// The records.
    pub fn list(&self) -> (out: Vec<PropertyIndexRecord>)
        ensures
            models(out@) == self@,
    {
        let mut out: Vec<PropertyIndexRecord> = Vec::new();
        let mut i: usize = 0;
        while i < self.records.len()
            invariant
                i <= self.records@.len(),
                out@.len() == i,
                forall|j: int| 0 <= j < i ==> #[trigger] out@[j]@ == self@[j],
            decreases self.records@.len() - i,
        {
            out.push(copy_record(&self.records[i]));
            i += 1;
        }
        assert(models(out@) =~= self@);
        out
    }

    /// The records of a tenant.
    pub fn list_for_tenant(&self, tenant: TenantId) -> (out: Vec<PropertyIndexRecord>)
        ensures
            models(out@) == of_tenant(self@, tenant.0),
    {
        reveal(Seq::filter);
        let mut out: Vec<PropertyIndexRecord> = Vec::new();
        let mut i: usize = 0;
        let ghost all = self@;
        proof {
            assert(all.take(0) =~= Seq::<RecordModel>::empty());
            assert(models(out@) =~= of_tenant(all.take(0), tenant.0));
        }
        while i < self.records.len()
            invariant
                i <= self.records@.len(),
                all == self@,
                models(out@) == of_tenant(all.take(i as int), tenant.0),
            decreases self.records@.len() - i,
        {
            proof {
                reveal(Seq::filter);
                assert(all.take(i + 1).drop_last() =~= all.take(i as int));
                assert(all.take(i + 1).last() == all[i as int]);
            }
            let ghost before = out@;
            if self.records[i].tenant == tenant {
                out.push(copy_record(&self.records[i]));
                assert(models(out@) =~= models(before).push(all[i as int]));
            }
            i += 1;
        }
        assert(all.take(i as int) =~= all);
        out
    }

    /// The property keys that are indexed for a label of a tenant, with their
    /// states.
    pub fn indexes_on(&self, tenant: TenantId, label: LabelId) -> (out: Vec<(StringId, IndexState)>)
        ensures
            Seq::new(out@.len(), |i: int| (out@[i].0.0, out@[i].1)) == keys_on(
                self@,
                tenant.0,
                label.0,
            ),
            Seq::new(out@.len(), |i: int| (out@[i].0.0, out@[i].1)) == self@.filter(
                |r: RecordModel| r.tenant == tenant.0 && r.label == label.0,
            ).map_values(|r: RecordModel| (r.property_key, r.state)),
    {
        let mut out: Vec<(StringId, IndexState)> = Vec::new();
        let mut i: usize = 0;
        let ghost all = self@;
        proof {
            assert(all.take(0) =~= Seq::<RecordModel>::empty());
            assert(pairs_of(out@) =~= keys_on(all.take(0), tenant.0, label.0));
        }
        while i < self.records.len()
            invariant
                i <= self.records@.len(),
                all == self@,
                pairs_of(out@) == keys_on(all.take(i as int), tenant.0, label.0),
            decreases self.records@.len() - i,
        {
            proof {
                assert(all.take(i + 1).drop_last() =~= all.take(i as int));
                assert(all.take(i + 1).last() == all[i as int]);
            }
            let ghost before = out@;
            let r = &self.records[i];
            if r.tenant == tenant && r.label == label {
                out.push((r.property_key, r.state));
                assert(pairs_of(out@) =~= pairs_of(before).push(
                    (all[i as int].property_key, all[i as int].state),
                ));
            }
            i += 1;
        }
        assert(all.take(i as int) =~= all);
        assert(Seq::new(out@.len(), |i: int| (out@[i].0.0, out@[i].1)) =~= pairs_of(out@));
        proof {
            law_indexes_on_a_label(all, tenant.0, label.0);
        }
        out
    }

    fn position(&self, tenant: TenantId, name: &str) -> (p: usize)
        ensures
            p == place_of(self@, tenant.0, name@),
            p <= self.records@.len(),
    {
        let wanted = name.to_owned();
        let mut i: usize = 0;
        while i < self.records.len()
            invariant
                wanted@ == name@,
                i <= self.records@.len(),
                forall|j: int|
                    0 <= j < i ==> !((#[trigger] self@[j]).tenant == tenant.0 && self@[j].name
                        == name@),
            decreases self.records@.len() - i,
        {
            if self.records[i].tenant == tenant && self.records[i].name == wanted {
                proof {
                    assert(self@[i as int].name == name@);
                    lemma_place_is(self@, tenant.0, name@, i as int);
                }
                return i;
            }
            i += 1;
        }
        proof {
            lemma_place_is(self@, tenant.0, name@, i as int);
        }
        i
    }

    /// The index of this name.
    pub fn resolve(&self, tenant: TenantId, name: &str) -> (r: Option<PropertyIndexRecord>)
        ensures
            match r {
                Some(rec) => declared(self@, tenant.0, name@) && rec@ == self@[place_of(
                    self@,
                    tenant.0,
                    name@,
                )],
                None => !declared(self@, tenant.0, name@),
            },
    {
        let p: usize = self.position(tenant, name);
        if p < self.records.len() {
            Some(copy_record(&self.records[p]))
        } else {
            None
        }
    }

    /// Declares an index, to be built. The list with it is handed to `commit`;
    /// where that fails, the index is not declared. A name that is declared
    /// already is an error, unless `if_not_exists`.
    pub fn create_index<E, F: FnOnce(Vec<u8>) -> Result<Lsn, E>>(
        &mut self,
        commit: F,
        record: PropertyIndexRecord,
        if_not_exists: bool,
    ) -> (r: Result<CreateOutcome, PropertyIndexCatalogError<E>>)
        requires
            forall|bytes: Vec<u8>| #[trigger] call_requires(commit, (bytes,)),
        ensures
            ({
                let next = old(self)@.push(as_building(record@));
                if declared(old(self)@, record.tenant.0, record.name@) {
                    &&& final(self)@ == old(self)@
                    &&& if if_not_exists {
                        r == Ok::<CreateOutcome, PropertyIndexCatalogError<E>>(
                            CreateOutcome::AlreadyExists,
                        )
                    } else {
                        r matches Err(PropertyIndexCatalogError::AlreadyExists { name }) && name@
                            == record.name@
                    }
                } else {
                    exists|bytes: Vec<u8>, done: Result<Lsn, E>|
                        {
                            &&& bytes@ == catalog_bytes(next)
                            &&& #[trigger] call_ensures(commit, (bytes,), done)
                            &&& match done {
                                Ok(_) => final(self)@ == next && r == Ok::<
                                    CreateOutcome,
                                    PropertyIndexCatalogError<E>,
                                >(CreateOutcome::Created),
                                Err(e) => final(self)@ == old(self)@ && r == Err::<
                                    CreateOutcome,
                                    PropertyIndexCatalogError<E>,
                                >(PropertyIndexCatalogError::Commit(e)),
                            }
                        }
                }
            }),
    {
        let ghost before = self@;
        let mut record = record;
        record.state = IndexState::Building;
        let p: usize = self.position(record.tenant, record.name.as_str());
        if p < self.records.len() {
            if if_not_exists {
                return Ok(CreateOutcome::AlreadyExists);
            }
            return Err(PropertyIndexCatalogError::AlreadyExists { name: record.name });
        }
        let ghost old_records = self.records@;
        let ghost model = record@;
        self.records.push(record);
        assert(self@ =~= before.push(model));
        let encoded = encode_catalog(self.records.as_slice());
        let done = commit(encoded);
        assert(call_ensures(commit, (encoded,), done));
        match done {
            Err(e) => {
                self.records.pop();
                assert(self.records@ =~= old_records);
                Err(PropertyIndexCatalogError::Commit(e))
            },
            Ok(_) => Ok(CreateOutcome::Created),
        }
    }

    /// Takes the declaration of an index back. The list without it is handed to
    /// `commit`; where that fails, the declaration stays. A name that is not
    /// declared is an error, unless `if_exists`. Says whether there was one.
    pub fn drop_index<E, F: FnOnce(Vec<u8>) -> Result<Lsn, E>>(
        &mut self,
        commit: F,
        tenant: TenantId,
        name: &str,
        if_exists: bool,
    ) -> (r: Result<bool, PropertyIndexCatalogError<E>>)
        requires
            forall|bytes: Vec<u8>| #[trigger] call_requires(commit, (bytes,)),
        ensures
            ({
                let p = place_of(old(self)@, tenant.0, name@);
                let next = old(self)@.remove(p);
                if !declared(old(self)@, tenant.0, name@) {
                    &&& final(self)@ == old(self)@
                    &&& if if_exists {
                        r == Ok::<bool, PropertyIndexCatalogError<E>>(false)
                    } else {
                        r matches Err(PropertyIndexCatalogError::NotFound { name: n }) && n@
                            == name@
                    }
                } else {
                    exists|bytes: Vec<u8>, done: Result<Lsn, E>|
                        {
                            &&& bytes@ == catalog_bytes(next)
                            &&& #[trigger] call_ensures(commit, (bytes,), done)
                            &&& match done {
                                Ok(_) => final(self)@ == next && r == Ok::<
                                    bool,
                                    PropertyIndexCatalogError<E>,
                                >(true),
                                Err(e) => final(self)@ == old(self)@ && r == Err::<
                                    bool,
                                    PropertyIndexCatalogError<E>,
                                >(PropertyIndexCatalogError::Commit(e)),
                            }
                        }
                }
            }),
    {
        let ghost before = self@;
        let ghost old_records = self.records@;
        let p: usize = self.position(tenant, name);
        proof {
            lemma_place(before, tenant.0, name@);
        }
        if p >= self.records.len() {
            if if_exists {
                return Ok(false);
            }
            return Err(PropertyIndexCatalogError::NotFound { name: name.to_owned() });
        }
        let removed = self.records.remove(p);
        assert(self@ =~= before.remove(p as int));
        let encoded = encode_catalog(self.records.as_slice());
        let done = commit(encoded);
        assert(call_ensures(commit, (encoded,), done));
        match done {
            Err(e) => {
                self.records.insert(p, removed);
                assert(self.records@ =~= old_records);
                Err(PropertyIndexCatalogError::Commit(e))
            },
            Ok(_) => Ok(true),
        }
    }

    /// Changes the state of an index. Gives the state it had, and the list as
    /// it is to be written under [`PROPERTY_INDEX_CATALOG_KEY`] by the caller's
    /// transaction; `None` where there is no index of this name.
    pub fn set_state_in(&mut self, tenant: TenantId, name: &str, new_state: IndexState) -> (r:
        Option<(IndexState, Vec<u8>)>)
        ensures
            ({
                let p = place_of(old(self)@, tenant.0, name@);
                let next = with_state(old(self)@, p, new_state);
                if declared(old(self)@, tenant.0, name@) {
                    &&& final(self)@ == next
                    &&& r matches Some((previous, value)) && previous == old(self)@[p].state
                        && value@ == catalog_bytes(next)
                } else {
                    r is None && final(self)@ == old(self)@
                }
            }),
    {
        let ghost before = self@;
        let p: usize = self.position(tenant, name);
        proof {
            lemma_place(before, tenant.0, name@);
        }
        if p >= self.records.len() {
            return None;
        }
        let previous = self.records[p].state;
        self.records[p].state = new_state;
        assert(self@ =~= with_state(before, p as int, new_state));
        let encoded = encode_catalog(self.records.as_slice());
        Some((previous, encoded))
    }

    /// Gives an index back the state it had, after a commit of
    /// [`PropertyIndexCatalog::set_state_in`] failed.
    pub fn revert_state(&mut self, tenant: TenantId, name: &str, previous_state: IndexState)
        ensures
            final(self)@ == if declared(old(self)@, tenant.0, name@) {
                with_state(old(self)@, place_of(old(self)@, tenant.0, name@), previous_state)
            } else {
                old(self)@
            },
    {
        let ghost before = self@;
        let p: usize = self.position(tenant, name);
        proof {
            lemma_place(before, tenant.0, name@);
        }
        if p < self.records.len() {
            self.records[p].state = previous_state;
            assert(self@ =~= with_state(before, p as int, previous_state));
        }
    }
}

/// A change of state that is reverted leaves the list as it was.
pub proof fn law_revert_undoes_set_state(
    s: Seq<RecordModel>,
    tenant: u64,
    name: Seq<char>,
    state: IndexState,
)
    requires
        declared(s, tenant, name),
    ensures
        ({
            let p = place_of(s, tenant, name);
            let t = with_state(s, p, state);
            &&& place_of(t, tenant, name) == p
            &&& with_state(t, p, s[p].state) == s
        }),
{
    lemma_place(s, tenant, name);
    let p = place_of(s, tenant, name);
    let t = with_state(s, p, state);
    assert forall|i: int| 0 <= i < p implies !((#[trigger] t[i]).tenant == tenant && t[i].name
        == name) by {
        assert(t[i] == s[i]);
    }
    lemma_place_is(t, tenant, name, p);
    assert(with_state(t, p, s[p].state) =~= s);
}

spec fn pairs_of(s: Seq<(StringId, IndexState)>) -> Seq<(u32, IndexState)> {
    Seq::new(s.len(), |i: int| (s[i].0.0, s[i].1))
}

} // verus!
