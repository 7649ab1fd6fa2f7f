//! Streaming the pages of a store to a visitor.
use vstd::prelude::*;

use crate::ids::PageId;

verus! {

/// A page that was shown: its number, its bytes, and the answer.
pub type PageVisit<E> = (PageId, Seq<u8>, Result<(), E>);

/// What pages are streamed to.
pub trait PageVisitor<E> {
    /// The pages that were shown so far, with the answers.
    spec fn visits(&self) -> Seq<PageVisit<E>>;

    /// Pages can be shown.
    spec fn ready(&self) -> bool;

    /// Takes a page.
    fn visit(&mut self, page_id: PageId, bytes: &Vec<u8>) -> (r: Result<(), E>)
        requires
            old(self).ready(),
        ensures
            final(self).ready(),
            final(self).visits() == old(self).visits().push((page_id, bytes@, r)),
    ;
}

/// A visitor that hands each page to a closure.
#[verifier::reject_recursive_types(E)]
pub struct PageVisits<E, F: FnMut(PageId, &Vec<u8>) -> Result<(), E>> {
    take: F,
    visits: Ghost<Seq<PageVisit<E>>>,
}

impl<E, F: FnMut(PageId, &Vec<u8>) -> Result<(), E>> PageVisits<E, F> {
    /// The closure.
    pub closed spec fn closure(self) -> F {
        self.take
    }

    /// A visitor that was shown no page yet.
    pub fn new(take: F) -> (v: PageVisits<E, F>)
        ensures
            v.closure() == take,
            v.visits() == Seq::<PageVisit<E>>::empty(),
    {
        PageVisits { take, visits: Ghost(Seq::empty()) }
    }
}

impl<E, F: FnMut(PageId, &Vec<u8>) -> Result<(), E>> PageVisitor<E> for PageVisits<E, F> {
    closed spec fn visits(&self) -> Seq<PageVisit<E>> {
        self.visits@
    }

    open spec fn ready(&self) -> bool {
        forall|page: PageId, bytes: Vec<u8>| #[trigger]
            call_requires(self.closure(), (page, &bytes))
    }

    fn visit(&mut self, page_id: PageId, bytes: &Vec<u8>) -> (r: Result<(), E>)
        ensures
            call_ensures(old(self).closure(), (page_id, bytes), r),
            final(self).closure() == old(self).closure(),
    {
        assert(self.closure() == self.take);
        let r = (self.take)(page_id, bytes);
        proof {
            self.visits = Ghost(self.visits@.push((page_id, bytes@, r)));
        }
        r
    }
}

/// The first `n` pages of a list, each shown once and in order. All but the
/// last were taken, and the last was answered with `last`.
pub open spec fn shown<E>(list: Seq<(PageId, Vec<u8>)>, n: int, last: Result<(), E>) -> Seq<
    PageVisit<E>,
> {
    Seq::new(
        n as nat,
        |i: int|
            (
                list[i].0,
                list[i].1@,
                if i == n - 1 {
                    last
                } else {
                    Ok(())
                },
            ),
    )
}

/// The pages of the list were streamed: all of them, or those up to the first
/// one that was not taken. `last` is the last answer.
pub open spec fn streamed<E>(
    list: Seq<(PageId, Vec<u8>)>,
    before: Seq<PageVisit<E>>,
    after: Seq<PageVisit<E>>,
    last: Result<(), E>,
) -> bool {
    exists|n: int| #[trigger] streamed_to(list, before, after, last, n)
}

/// The first `n` pages of the list were streamed: all of them if the last one
/// was taken.
pub open spec fn streamed_to<E>(
    list: Seq<(PageId, Vec<u8>)>,
    before: Seq<PageVisit<E>>,
    after: Seq<PageVisit<E>>,
    last: Result<(), E>,
    n: int,
) -> bool {
    &&& 0 <= n <= list.len()
    &&& last is Ok ==> n == list.len()
    &&& last is Err ==> n > 0
    &&& after == before + shown(list, n, last)
}

/// Streams the pages of a list until one is not taken.
pub(crate) fn stream_pages<E, V: PageVisitor<E>>(
    list: &Vec<(PageId, Vec<u8>)>,
    visitor: &mut V,
) -> (r: Result<(), E>)
    requires
        old(visitor).ready(),
    ensures
        final(visitor).ready(),
        streamed(list@, old(visitor).visits(), final(visitor).visits(), r),
{
    let ghost before = visitor.visits();
    let mut i: usize = 0;
    assert(visitor.visits() =~= before + shown(list@, 0, Ok::<(), E>(())));
    while i < list.len()
        invariant
            i <= list@.len(),
            before == old(visitor).visits(),
            visitor.ready(),
            visitor.visits() == before + shown(list@, i as int, Ok::<(), E>(())),
        decreases list@.len() - i,
    {
        match visitor.visit(list[i].0, &list[i].1) {
            Err(e) => {
                proof {
                    let last = Err::<(), E>(e);
                    assert(visitor.visits() =~= before + shown(list@, i + 1, last));
                    assert(streamed_to(list@, before, visitor.visits(), last, i + 1));
                }
                return Err(e);
            },
            Ok(done) => {
                assert(done == ());
                assert(visitor.visits() =~= before + shown(list@, i + 1, Ok::<(), E>(())));
            },
        }
        i += 1;
    }
    assert(streamed_to(list@, before, visitor.visits(), Ok::<(), E>(()), i as int));
    Ok(())
}

} // verus!
