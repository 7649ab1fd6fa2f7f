//! What a transaction notes of the pages it changes, so that a commit that
//! fails can be undone.
use vstd::prelude::*;

use crate::ids::PageId;
use crate::index_rows::copy_range;

verus! {

/// The store that a page belongs to.
#[derive(Clone, Copy, Debug, PartialEq, Eq, Structural)]
pub enum PageStoreKind {
    /// Pages of the primary index.
    Primary,
    /// Pages of records.
    Record,
}

/// An index whose root may change.
#[derive(Clone, Copy, Debug, PartialEq, Eq, Structural)]
pub struct IndexHandle(pub u32);

impl IndexHandle {
    /// The primary index.
    pub fn primary() -> (h: IndexHandle)
        ensures
            h.0 == 0,
    {
        IndexHandle(0)
    }
}

/// A page as it was before a change.
#[derive(Debug)]
pub struct PageCapture {
    /// The store of the page.
    pub kind: PageStoreKind,
    /// The page.
    pub page_id: PageId,
    /// Its bytes.
    pub bytes: Vec<u8>,
}

/// What a capture says.
pub struct CaptureModel {
    /// The store of the page.
    pub kind: PageStoreKind,
    /// The page.
    pub page: u64,
    /// Its bytes.
    pub bytes: Seq<u8>,
}

/// What a log says.
#[verifier::ext_equal]
pub struct LogModel {
    /// Pages as they were before their first change.
    pub captures: Seq<CaptureModel>,
    /// Pages that are new.
    pub fresh: Seq<(PageStoreKind, u64)>,
    /// Roots as they were before they changed.
    pub roots: Seq<(IndexHandle, u64)>,
}

/// The log of one transaction.
#[derive(Debug)]
pub struct TxnMutationLog {
    /// Pages as they were before their first change.
    pub page_mutations: Vec<PageCapture>,
    /// Pages that are new.
    pub new_pages: Vec<(PageStoreKind, PageId)>,
    /// Roots as they were before they changed.
    pub root_changes: Vec<(IndexHandle, PageId)>,
}

/// The captures of a log.
pub open spec fn capture_models(s: Seq<PageCapture>) -> Seq<CaptureModel> {
    Seq::new(
        s.len(),
        |i: int| CaptureModel { kind: s[i].kind, page: s[i].page_id.0, bytes: s[i].bytes@ },
    )
}

impl View for TxnMutationLog {
    type V = LogModel;

    open spec fn view(&self) -> LogModel {
        LogModel {
            captures: capture_models(self.page_mutations@),
            fresh: Seq::new(
                self.new_pages@.len(),
                |i: int| (self.new_pages@[i].0, self.new_pages@[i].1.0),
            ),
            roots: Seq::new(
                self.root_changes@.len(),
                |i: int| (self.root_changes@[i].0, self.root_changes@[i].1.0),
            ),
        }
    }
}

/// Whether a log holds a page as it was.
pub open spec fn captured(log: LogModel, kind: PageStoreKind, page: u64) -> bool {
    exists|i: int|
        0 <= i < log.captures.len() && (#[trigger] log.captures[i]).kind == kind
            && log.captures[i].page == page
}

/// A log after a page was captured: the first capture of a page counts.
pub open spec fn log_capture(
    log: LogModel,
    kind: PageStoreKind,
    page: u64,
    bytes: Seq<u8>,
) -> LogModel {
    if captured(log, kind, page) {
        log
    } else {
        LogModel { captures: log.captures.push(CaptureModel { kind, page, bytes }), ..log }
    }
}

/// A log after a new page was noted.
pub open spec fn log_fresh(log: LogModel, kind: PageStoreKind, page: u64) -> LogModel {
    LogModel { fresh: log.fresh.push((kind, page)), ..log }
}

/// A log after a root was noted.
pub open spec fn log_root(log: LogModel, index: IndexHandle, page: u64) -> LogModel {
    LogModel { roots: log.roots.push((index, page)), ..log }
}

/// A log without an entry.
pub open spec fn empty_log() -> LogModel {
    LogModel { captures: Seq::empty(), fresh: Seq::empty(), roots: Seq::empty() }
}

/// The log says how to get from the pages `now` of a store back to the pages
/// `start`: every page that changed since is noted as it was then, every note
/// of such a page is of how it was then, and the pages that are new are the
/// ones that are noted as new.
pub open spec fn undoes(
    kind: PageStoreKind,
    start: Map<u64, Seq<u8>>,
    now: Map<u64, Seq<u8>>,
    log: LogModel,
) -> bool {
    &&& forall|m: u64| #[trigger]
        start.contains_key(m) ==> now.contains_key(m) && !log.fresh.contains((kind, m)) && (now[m]
            == start[m] || captured(log, kind, m))
    &&& forall|i: int|
        0 <= i < log.captures.len() && (#[trigger] log.captures[i]).kind == kind
            && start.contains_key(log.captures[i].page) ==> log.captures[i].bytes
            == start[log.captures[i].page]
    &&& forall|m: u64| #[trigger]
        now.contains_key(m) ==> start.contains_key(m) || log.fresh.contains((kind, m))
}

/// The bytes that a page had when the log noted it.
pub open spec fn noted_bytes(log: LogModel, kind: PageStoreKind, page: u64) -> Seq<u8> {
    let i = choose|i: int|
        0 <= i < log.captures.len() && (#[trigger] log.captures[i]).kind == kind
            && log.captures[i].page == page;
    log.captures[i].bytes
}

/// The pages of a store once a transaction was undone: pages that are noted as
/// new are taken out, pages that are noted get their bytes back.
pub open spec fn rolled_back(now: Map<u64, Seq<u8>>, kind: PageStoreKind, log: LogModel) -> Map<
    u64,
    Seq<u8>,
> {
    Map::new(
        |m: u64| now.contains_key(m) && !log.fresh.contains((kind, m)),
        |m: u64|
            if captured(log, kind, m) {
                noted_bytes(log, kind, m)
            } else {
                now[m]
            },
    )
}

/// Undoing a transaction by its log gives the pages it started from.
pub proof fn law_rollback(
    kind: PageStoreKind,
    start: Map<u64, Seq<u8>>,
    now: Map<u64, Seq<u8>>,
    log: LogModel,
)
    requires
        undoes(kind, start, now, log),
    ensures
        rolled_back(now, kind, log) == start,
{
    let back = rolled_back(now, kind, log);
    assert forall|m: u64| #[trigger] back.contains_key(m) <==> start.contains_key(m) by {
        if now.contains_key(m) {
            assert(start.contains_key(m) || log.fresh.contains((kind, m)));
        }
    }
    assert forall|m: u64| #[trigger] start.contains_key(m) implies back[m] == start[m] by {
        if captured(log, kind, m) {
            let i = choose|i: int|
                0 <= i < log.captures.len() && (#[trigger] log.captures[i]).kind == kind
                    && log.captures[i].page == m;
            assert(log.captures[i].bytes == start[m]);
        }
    }
    assert(back =~= start);
}

/// A transaction that has noted nothing yet has nothing to undo.
pub proof fn law_nothing_to_undo(kind: PageStoreKind, start: Map<u64, Seq<u8>>)
    ensures
        undoes(kind, start, start, empty_log()),
{
}

/// A page may be changed once it is noted.
pub proof fn law_noted_page_may_change(
    kind: PageStoreKind,
    start: Map<u64, Seq<u8>>,
    now: Map<u64, Seq<u8>>,
    log: LogModel,
    page: u64,
    bytes: Seq<u8>,
)
    requires
        undoes(kind, start, now, log),
        now.contains_key(page),
    ensures
        undoes(kind, start, now.insert(page, bytes), log_capture(log, kind, page, now[page])),
{
    let t = log_capture(log, kind, page, now[page]);
    if !captured(log, kind, page) {
        let n = log.captures.len() as int;
        assert(t.captures[n].kind == kind && t.captures[n].page == page);
        assert forall|m: u64| captured(log, kind, m) implies captured(t, kind, m) by {
            let i = choose|i: int|
                0 <= i < log.captures.len() && (#[trigger] log.captures[i]).kind == kind
                    && log.captures[i].page == m;
            assert(t.captures[i] == log.captures[i]);
        }
        assert forall|i: int|
            0 <= i < t.captures.len() && (#[trigger] t.captures[i]).kind == kind
                && start.contains_key(t.captures[i].page) implies t.captures[i].bytes
            == start[t.captures[i].page] by {
            if i < n {
                assert(t.captures[i] == log.captures[i]);
            } else {
                assert(start.contains_key(page));
            }
        }
        assert(captured(t, kind, page));
    }
}

/// A page may be added once it is noted as new.
pub proof fn law_new_page_may_be_added(
    kind: PageStoreKind,
    start: Map<u64, Seq<u8>>,
    now: Map<u64, Seq<u8>>,
    log: LogModel,
    page: u64,
    bytes: Seq<u8>,
)
    requires
        undoes(kind, start, now, log),
        !now.contains_key(page),
    ensures
        undoes(kind, start, now.insert(page, bytes), log_fresh(log, kind, page)),
{
    let t = log_fresh(log, kind, page);
    assert(t.fresh[log.fresh.len() as int] == (kind, page));
    assert forall|m: u64| #[trigger] log.fresh.contains((kind, m)) implies t.fresh.contains(
        (kind, m),
    ) by {
        let i = choose|i: int| 0 <= i < log.fresh.len() && log.fresh[i] == (kind, m);
        assert(t.fresh[i] == (kind, m));
    }
    assert forall|m: u64| #[trigger] start.contains_key(m) implies !t.fresh.contains((kind, m)) by {
        assert(now.contains_key(m) && !log.fresh.contains((kind, m)));
        if t.fresh.contains((kind, m)) {
            let i = choose|i: int| 0 <= i < t.fresh.len() && t.fresh[i] == (kind, m);
            if i < log.fresh.len() {
                assert(log.fresh[i] == (kind, m));
            }
        }
    }
    assert forall|m: u64| captured(log, kind, m) implies captured(t, kind, m) by {
        let i = choose|i: int|
            0 <= i < log.captures.len() && (#[trigger] log.captures[i]).kind == kind
                && log.captures[i].page == m;
        assert(t.captures[i] == log.captures[i]);
    }
}

impl TxnMutationLog {
    /// An empty log.
    pub fn new() -> (log: TxnMutationLog)
        ensures
            log@ == empty_log(),
    {
        let log = TxnMutationLog {
            page_mutations: Vec::new(),
            new_pages: Vec::new(),
            root_changes: Vec::new(),
        };
        assert(log@ =~= empty_log());
        log
    }

    /// Whether the log holds a page of this store as it was.
    pub fn has_captured(&self, kind: PageStoreKind, page_id: PageId) -> (r: bool)
        ensures
            r == captured(self@, kind, page_id.0),
    {
        let mut i: usize = 0;
        while i < self.page_mutations.len()
            invariant
                i <= self.page_mutations@.len(),
                forall|j: int|
                    0 <= j < i ==> !((#[trigger] self@.captures[j]).kind == kind
                        && self@.captures[j].page == page_id.0),
            decreases self.page_mutations@.len() - i,
        {
            let c = &self.page_mutations[i];
            if c.kind == kind && c.page_id == page_id {
                assert(self@.captures[i as int].kind == kind);
                return true;
            }
            i += 1;
        }
        false
    }

    /// Notes a page as it was, unless the log holds it already.
    pub fn capture(&mut self, kind: PageStoreKind, page_id: PageId, bytes: &[u8])
        ensures
            final(self)@ == log_capture(old(self)@, kind, page_id.0, bytes@),
    {
        if self.has_captured(kind, page_id) {
            return;
        }
        let copy = copy_range(bytes, 0, bytes.len());
        assert(copy@ =~= bytes@);
        self.page_mutations.push(PageCapture { kind, page_id, bytes: copy });
        assert(self@ =~= log_capture(old(self)@, kind, page_id.0, bytes@)) by {
            assert(self@.captures =~= old(self)@.captures.push(
                CaptureModel { kind, page: page_id.0, bytes: bytes@ },
            ));
        }
    }

    /// Notes a new page.
    pub fn note_new_page(&mut self, kind: PageStoreKind, page_id: PageId)
        ensures
            final(self)@ == log_fresh(old(self)@, kind, page_id.0),
    {
        self.new_pages.push((kind, page_id));
        assert(self@ =~= log_fresh(old(self)@, kind, page_id.0));
    }

    /// Notes the root that an index had.
    pub fn note_root(&mut self, index: IndexHandle, page_id: PageId)
        ensures
            final(self)@ == log_root(old(self)@, index, page_id.0),
    {
        self.root_changes.push((index, page_id));
        assert(self@ =~= log_root(old(self)@, index, page_id.0));
    }
}

} // verus!
