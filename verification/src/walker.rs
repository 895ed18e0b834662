//! The depth-bounded traversal engine.
//!
//! `Walker` drives the whole crawl as a step machine over an explicit work
//! stack, so no deep call stack is needed. Each call to [`Walker::step`]
//! returns the next piece of externally visible work — enroll an identity
//! for enrichment, report a discovered edge, fetch one page of follows, or
//! report completion — and the caller feeds each fetched page back in with
//! [`Walker::on_page`].
//!
//! Two dedup indices guarantee exactly-once work per identity per concern:
//! `attr_done` (enrolled for enrichment) and `follows_done` (scheduled for
//! expansion). The depth policy is fixed: the root (distance 0) and every
//! identity first reached at distance 1 have their follow lists expanded;
//! identities first reached at distance 2 are enrolled but never expanded.

use vstd::prelude::*;

use crate::dedup::DedupIndex;

verus! {

/// The next piece of externally visible work the crawl asks its driver to do.
pub enum Action {
    /// Hand this identity to the enrichment stage (it was newly discovered).
    Enroll { identity: String },
    /// A follow edge was observed, reported in preorder: `source` follows `target`.
    Edge { source: String, target: String },
    /// Call the remote listing operation for `identity`, threading `cursor`
    /// unchanged from the previous page of the same identity (`None` opens
    /// the page sequence), then feed the result to [`Walker::on_page`].
    Fetch { identity: String, cursor: Option<String> },
    /// The crawl is complete: the work stack is empty.
    Done,
}

/// One unit of pending work on the explicit traversal stack.
enum Frame {
    /// `identity` was just discovered at `distance`: enroll it, then decide
    /// whether to expand its follows.
    Visit { identity: String, distance: u8 },
    /// `identity` passed the depth check; its first page fetch is owed.
    Expand { identity: String, distance: u8 },
    /// A fetch for `identity` at `cursor` has been handed out; the page has
    /// not come back yet.
    Await { identity: String, distance: u8, cursor: Option<String> },
    /// A delivered page for `identity`: targets `index..` are still to be
    /// reported, and `next` is the continuation cursor, if any.
    Items { identity: String, distance: u8, targets: Vec<String>, index: usize, next: Option<String> },
}

spec fn fid(f: Frame) -> Seq<char> {
    match f {
        Frame::Visit { identity, .. } => identity@,
        Frame::Expand { identity, .. } => identity@,
        Frame::Await { identity, .. } => identity@,
        Frame::Items { identity, .. } => identity@,
    }
}

spec fn fdist(f: Frame) -> nat {
    match f {
        Frame::Visit { distance, .. } => distance as nat,
        Frame::Expand { distance, .. } => distance as nat,
        Frame::Await { distance, .. } => distance as nat,
        Frame::Items { distance, .. } => distance as nat,
    }
}

/// The frame still owes its identity an expansion decision.
spec fn is_active(f: Frame) -> bool {
    f is Visit || f is Expand
}

/// The expansion of the frame's identity has begun (a fetch went out).
spec fn is_started(f: Frame) -> bool {
    f is Await || f is Items
}

spec fn frame_ok(f: Frame) -> bool {
    &&& (f matches Frame::Items { targets, index, .. } ==> index <= targets@.len())
    &&& (!(f is Visit) ==> fdist(f) <= 1)
}

spec fn frame_cursor(f: Frame) -> Option<Seq<char>> {
    match f {
        Frame::Await { cursor, .. } => cursor.deep_view(),
        _ => None,
    }
}

spec fn frame_targets(f: Frame) -> Seq<Seq<char>> {
    match f {
        Frame::Items { targets, .. } => targets.deep_view(),
        _ => Seq::empty(),
    }
}

spec fn frame_index(f: Frame) -> nat {
    match f {
        Frame::Items { index, .. } => index as nat,
        _ => 0,
    }
}

spec fn frame_next(f: Frame) -> Option<Seq<char>> {
    match f {
        Frame::Items { next, .. } => next.deep_view(),
        _ => None,
    }
}

/// A delivered page fully worked through, with no continuation: the next
/// `step` discards it silently.
spec fn finished_frame(f: Frame) -> bool {
    &&& f is Items
    &&& frame_index(f) == frame_targets(f).len()
    &&& frame_next(f) is None
}

/// The stack with its trailing run of finished pages removed: the prefix
/// that still determines what happens next.
spec fn live_len(st: Seq<Frame>) -> int
    decreases st.len(),
{
    if st.len() == 0 {
        0
    } else if finished_frame(st.last()) {
        live_len(st.drop_last())
    } else {
        st.len() as int
    }
}

proof fn lemma_live_len(st: Seq<Frame>)
    ensures
        0 <= live_len(st) <= st.len(),
        live_len(st) > 0 ==> !finished_frame(st[live_len(st) - 1]),
        forall|i: int| live_len(st) <= i < st.len() ==> finished_frame(#[trigger] st[i]),
    decreases st.len(),
{
    if st.len() > 0 && finished_frame(st.last()) {
        lemma_live_len(st.drop_last());
        assert forall|i: int| live_len(st) <= i < st.len()
            implies finished_frame(#[trigger] st[i]) by {
            if i < st.len() - 1 {
                assert(st.drop_last()[i] == st[i]);
            }
        }
    }
}

/// While `step` silently discards finished pages, the stack stays a prefix
/// of the entry stack with the same live length; so once an unfinished
/// frame is on top, it is exactly the entry stack's live top.
proof fn lemma_live_top_of_prefix(st_old: Seq<Frame>, st_cur: Seq<Frame>)
    requires
        st_cur == st_old.subrange(0, st_cur.len() as int),
        live_len(st_cur) == live_len(st_old),
        st_cur.len() > 0,
        !finished_frame(st_cur.last()),
    ensures
        live_len(st_old) == st_cur.len(),
        0 < live_len(st_old) <= st_old.len(),
        st_old[live_len(st_old) - 1] == st_cur.last(),
{
    lemma_live_len(st_old);
    assert(live_len(st_cur) == st_cur.len() as int);
    assert(st_old[st_cur.len() - 1] == st_cur[st_cur.len() - 1]);
}

/// One suspended or current page, as the contract sees it: the identity
/// being paged, the delivered targets, how many are already reported, and
/// the stored continuation cursor.
pub type PageState = (Seq<char>, Seq<Seq<char>>, nat, Option<Seq<char>>);

spec fn page_of(f: Frame) -> PageState {
    (fid(f), frame_targets(f), frame_index(f), frame_next(f))
}

/// The pages that still owe work, bottom-up: every delivered page on the
/// stack that is not yet fully consumed.
spec fn pending_of(st: Seq<Frame>) -> Seq<PageState>
    decreases st.len(),
{
    if st.len() == 0 {
        Seq::empty()
    } else if st.last() is Items && !finished_frame(st.last()) {
        pending_of(st.drop_last()).push(page_of(st.last()))
    } else {
        pending_of(st.drop_last())
    }
}

proof fn lemma_pending_push(st: Seq<Frame>, f: Frame)
    ensures
        pending_of(st.push(f)) == (if f is Items && !finished_frame(f) {
            pending_of(st).push(page_of(f))
        } else {
            pending_of(st)
        }),
{
    assert(st.push(f).drop_last() =~= st);
    assert(st.push(f).last() == f);
}

/// Finished pages contribute nothing: the pending pages of a stack are
/// those of its live prefix.
proof fn lemma_pending_live(st: Seq<Frame>)
    ensures
        pending_of(st) == pending_of(st.subrange(0, live_len(st))),
    decreases st.len(),
{
    lemma_live_len(st);
    if st.len() > 0 && finished_frame(st.last()) {
        lemma_pending_live(st.drop_last());
        assert(st.drop_last().subrange(0, live_len(st)) =~= st.subrange(0, live_len(st)));
    } else if st.len() > 0 {
        assert(st.subrange(0, st.len() as int) =~= st);
    } else {
        assert(st.subrange(0, 0) =~= st);
    }
}

/// Silently dropping trailing finished pages leaves the pending pages as
/// they were.
proof fn lemma_pending_prefix(st_old: Seq<Frame>, st_cur: Seq<Frame>)
    requires
        st_cur == st_old.subrange(0, st_cur.len() as int),
        st_cur.len() <= st_old.len(),
        live_len(st_cur) == live_len(st_old),
    ensures
        pending_of(st_cur) == pending_of(st_old),
{
    lemma_live_len(st_old);
    lemma_live_len(st_cur);
    lemma_pending_live(st_old);
    lemma_pending_live(st_cur);
    assert(st_cur.subrange(0, live_len(st_cur)) =~= st_old.subrange(0, live_len(st_old)));
}

proof fn lemma_push_contains<A>(s: Seq<A>, x: A, y: A)
    ensures
        s.push(x).contains(y) <==> (s.contains(y) || y == x),
{
    if s.contains(y) {
        let i = choose|i: int| 0 <= i < s.len() && s[i] == y;
        assert(s.push(x)[i] == y);
    }
    if y == x {
        assert(s.push(x)[s.len() as int] == y);
    }
    if s.push(x).contains(y) {
        let i = choose|i: int| 0 <= i < s.push(x).len() && s.push(x)[i] == y;
        if i < s.len() {
            assert(s[i] == y);
        }
    }
}

/// The page size bound the driver passes on every listing call.
pub const PAGE_LIMIT: u8 = 100;

/// The crawl state: the two dedup indices, the work stack, and a ghost
/// record of everything handed out so far.
pub struct Walker {
    attr_done: DedupIndex,
    follows_done: DedupIndex,
    stack: Vec<Frame>,
    root_id: Ghost<Seq<char>>,
    enroll_log: Ghost<Seq<Seq<char>>>,
    expand_log: Ghost<Seq<Seq<char>>>,
    first_dist: Ghost<Map<Seq<char>, nat>>,
}

impl Walker {
    /// The identity the crawl was started from.
    pub closed spec fn root(self) -> Seq<char> {
        self.root_id@
    }

    /// All identities handed to the enrichment stage, in order.
    pub closed spec fn enrolled(self) -> Seq<Seq<char>> {
        self.enroll_log@
    }

    /// All identities whose follow list was opened (first page fetched), in order.
    pub closed spec fn expansions(self) -> Seq<Seq<char>> {
        self.expand_log@
    }

    /// Whether `id` has been discovered (scheduled for its once-only visit).
    pub closed spec fn discovered(self, id: Seq<char>) -> bool {
        self.follows_done@.contains(id)
    }

    /// The root-distance at which `id` was first discovered.
    pub closed spec fn first_distance(self, id: Seq<char>) -> nat {
        self.first_dist@[id]
    }

    /// No work is left: the crawl is over.
    pub closed spec fn finished(self) -> bool {
        self.stack@.len() == 0
    }

    /// A fetch has been handed out and its page has not been fed back yet.
    pub closed spec fn awaiting(self) -> bool {
        self.stack@.len() > 0 && self.stack@.last() is Await
    }

    /// The identity of the outstanding fetch.
    pub closed spec fn await_id(self) -> Seq<char> {
        fid(self.stack@.last())
    }

    /// The cursor of the outstanding fetch.
    pub closed spec fn await_cursor(self) -> Option<Seq<char>> {
        frame_cursor(self.stack@.last())
    }

    /// The topmost piece of work that still determines what happens next
    /// (pages already worked through, with no continuation, do not count).
    spec fn live_top(self) -> Frame {
        self.stack@[live_len(self.stack@) - 1]
    }

    /// No live work remains: the next `step` reports completion.
    pub closed spec fn exhausted(self) -> bool {
        live_len(self.stack@) == 0
    }

    /// The pages that still owe work, bottom-up: the suspended outer pages
    /// and, last, the page currently being worked through (if any).
    pub closed spec fn pending(self) -> Seq<PageState> {
        pending_of(self.stack@)
    }

    /// The live work is a delivered page being worked through.
    pub closed spec fn mid_page(self) -> bool {
        live_len(self.stack@) > 0 && self.live_top() is Items
    }

    /// The identity whose page is being worked through.
    pub closed spec fn page_id(self) -> Seq<char> {
        fid(self.live_top())
    }

    /// The targets of the page being worked through.
    pub closed spec fn page_items(self) -> Seq<Seq<char>> {
        frame_targets(self.live_top())
    }

    /// How many targets of the current page have been reported already.
    pub closed spec fn page_index(self) -> nat {
        frame_index(self.live_top())
    }

    /// The continuation cursor stored from the current page's response.
    pub closed spec fn page_next(self) -> Option<Seq<char>> {
        frame_next(self.live_top())
    }

    /// An edge report is due: the live page still has unreported targets.
    pub open spec fn edge_due(self) -> bool {
        self.mid_page() && self.page_index() < self.page_items().len()
    }

    /// A continuation fetch is due: the live page is fully reported and
    /// carries a continuation cursor.
    pub open spec fn continuation_due(self) -> bool {
        self.mid_page() && self.page_index() == self.page_items().len()
            && self.page_next() is Some
    }

    /// An enrollment is due: a just-discovered identity awaits its visit.
    pub closed spec fn visit_due(self) -> bool {
        live_len(self.stack@) > 0 && self.live_top() is Visit
    }

    /// The identity whose visit is due.
    pub closed spec fn visit_id(self) -> Seq<char> {
        fid(self.live_top())
    }

    /// The root-distance of the identity whose visit is due.
    pub closed spec fn visit_distance(self) -> nat {
        fdist(self.live_top())
    }

    /// An opening fetch is due: this identity passed the depth check.
    pub closed spec fn expand_due(self) -> bool {
        live_len(self.stack@) > 0 && self.live_top() is Expand
    }

    /// The identity whose opening fetch is due.
    pub closed spec fn expand_id(self) -> Seq<char> {
        fid(self.live_top())
    }

    spec fn frames_ok(self) -> bool {
        let st = self.stack@;
        &&& (forall|i: int| 0 <= i < st.len() ==> frame_ok(#[trigger] st[i]))
        &&& (forall|i: int, j: int|
            #![trigger st[i], st[j]]
            0 <= i < j < st.len() ==> fid(st[i]) != fid(st[j]))
        &&& (forall|i: int| 0 <= i < st.len() ==> self.follows_done@.contains(fid(#[trigger] st[i])))
        &&& (forall|i: int| 0 <= i < st.len() ==> self.first_dist@.contains_key(fid(#[trigger] st[i]))
            && self.first_dist@[fid(st[i])] == fdist(st[i]))
        &&& (forall|i: int| 0 <= i < st.len() && (#[trigger] st[i]) is Await ==> i == st.len() - 1)
        &&& (forall|i: int| 0 <= i < st.len() - 1 ==> (#[trigger] st[i]) is Items)
        &&& (st.len() > 0 && st.last() is Visit ==> !self.attr_done@.contains(fid(st.last())))
        &&& (forall|i: int| 0 <= i < st.len() && is_active(#[trigger] st[i])
            ==> !self.expand_log@.contains(fid(st[i])))
        &&& (forall|i: int| 0 <= i < st.len() && is_started(#[trigger] st[i])
            ==> self.expand_log@.contains(fid(st[i])))
    }

    spec fn log_ok(self) -> bool {
        &&& self.expand_log@.no_duplicates()
        &&& (forall|id: Seq<char>| #[trigger] self.expand_log@.contains(id)
            ==> self.follows_done@.contains(id)
                && self.first_dist@.contains_key(id)
                && self.first_dist@[id] <= 1)
    }

    spec fn dom_ok(self) -> bool {
        &&& (forall|id: Seq<char>|
            (#[trigger] self.first_dist@.contains_key(id)) <==> (#[trigger] self.follows_done@.contains(id)))
        &&& (forall|id: Seq<char>| #[trigger] self.first_dist@.contains_key(id)
            ==> self.first_dist@[id] <= 2)
    }

    /// Every discovered identity within the depth budget is either already
    /// expanded or still owed an expansion decision by some stack frame.
    spec fn complete_ok(self) -> bool {
        forall|id: Seq<char>|
            (#[trigger] self.follows_done@.contains(id))
                && self.first_dist@.contains_key(id)
                && self.first_dist@[id] <= 1
            ==> self.expand_log@.contains(id)
                || (exists|i: int| 0 <= i < self.stack@.len()
                    && is_active(#[trigger] self.stack@[i]) && fid(self.stack@[i]) == id)
    }

    /// Enrollment tracks discovery: everything enrolled was discovered, and
    /// everything discovered is enrolled or still owed its visit.
    spec fn enroll_ok(self) -> bool {
        &&& (forall|id: Seq<char>| #[trigger] self.attr_done@.contains(id)
            ==> self.follows_done@.contains(id))
        &&& (forall|id: Seq<char>| #[trigger] self.follows_done@.contains(id)
            ==> self.attr_done@.contains(id)
                || (exists|i: int| 0 <= i < self.stack@.len()
                    && (#[trigger] self.stack@[i]) is Visit && fid(self.stack@[i]) == id))
    }

    spec fn root_ok(self) -> bool {
        &&& self.follows_done@.contains(self.root_id@)
        &&& self.first_dist@.contains_key(self.root_id@)
        &&& self.first_dist@[self.root_id@] == 0
        &&& (self.enroll_log@.len() == 0 ==> self.stack@.len() == 1
            && self.stack@[0] is Visit
            && fid(self.stack@[0]) == self.root_id@
            && fdist(self.stack@[0]) == 0
            && self.expand_log@.len() == 0)
        &&& (self.enroll_log@.len() > 0 ==> self.enroll_log@[0] == self.root_id@)
    }

    /// The crawl invariant. It carries, among other things: both dedup
    /// indices are duplicate-free; the enrollment log is exactly the
    /// enrichment index; every expansion was performed at distance 0 or 1,
    /// at most once per identity; and the root was discovered at distance 0.
    pub closed spec fn wf(self) -> bool {
        &&& self.attr_done.wf()
        &&& self.follows_done.wf()
        &&& self.attr_done@ == self.enroll_log@
        &&& self.frames_ok()
        &&& self.log_ok()
        &&& self.dom_ok()
        &&& self.complete_ok()
        &&& self.enroll_ok()
        &&& self.root_ok()
    }

    /// Starts a crawl at `root`. The root is discovered at distance 0 and
    /// its visit is the only pending work.
    pub fn new(root: String) -> (w: Walker)
        ensures
            w.wf(),
            w.root() == root@,
            w.enrolled() == Seq::<Seq<char>>::empty(),
            w.expansions() == Seq::<Seq<char>>::empty(),
            !w.finished(),
            !w.awaiting(),
            !w.exhausted(),
            forall|id: Seq<char>| (#[trigger] w.discovered(id)) <==> id == root@,
            w.first_distance(root@) == 0,
            w.visit_due(),
            w.visit_id() == root@,
            w.visit_distance() == 0,
            w.pending() == Seq::<PageState>::empty(),
    {
        let ghost root_view = root@;
        let mut follows_done = DedupIndex::new();
        let _ = follows_done.test_and_insert(&root);
        let mut stack: Vec<Frame> = Vec::new();
        stack.push(Frame::Visit { identity: root, distance: 0 });
        let w = Walker {
            attr_done: DedupIndex::new(),
            follows_done,
            stack,
            root_id: Ghost(root_view),
            enroll_log: Ghost(Seq::empty()),
            expand_log: Ghost(Seq::empty()),
            first_dist: Ghost(Map::<Seq<char>, nat>::empty().insert(root_view, 0)),
        };
        proof {
            assert(w.follows_done@ =~= Seq::<Seq<char>>::empty().push(root_view));
            assert(w.follows_done@[0] == root_view);
            assert(w.follows_done@.contains(root_view));
            assert forall|id: Seq<char>| #[trigger] w.follows_done@.contains(id)
                implies id == root_view by {
                let i = choose|i: int| 0 <= i < w.follows_done@.len() && w.follows_done@[i] == id;
            }
            assert(w.stack@.len() == 1);
            assert(w.stack@[0] == (Frame::Visit { identity: root, distance: 0u8 }));
            lemma_pending_push(Seq::<Frame>::empty(), w.stack@[0]);
            assert(w.stack@ =~= Seq::<Frame>::empty().push(w.stack@[0]));
            assert(w.pending() =~= Seq::<PageState>::empty());
        }
        w
    }

    /// Performs silent bookkeeping until the next externally visible piece
    /// of work is found, and returns it.
    #[verifier::loop_isolation(false)]
    pub fn step(&mut self) -> (r: Action)
        requires
            old(self).wf(),
            !old(self).awaiting(),
        ensures
            final(self).wf(),
            final(self).root() == old(self).root(),
            forall|id: Seq<char>| #[trigger] old(self).discovered(id) ==> final(self).discovered(id)
                && final(self).first_distance(id) == old(self).first_distance(id),
            (r is Done) <==> old(self).exhausted(),
            (r is Enroll) <==> old(self).visit_due(),
            (r is Edge) <==> old(self).edge_due(),
            (r is Fetch) <==> (old(self).expand_due() || old(self).continuation_due()),
            (match r {
                Action::Done => {
                    &&& final(self).finished()
                    &&& final(self).enrolled() == old(self).enrolled()
                    &&& final(self).expansions() == old(self).expansions()
                    &&& (forall|id: Seq<char>| (#[trigger] final(self).discovered(id))
                        <==> old(self).discovered(id))
                    &&& !final(self).awaiting()
                    &&& old(self).pending().len() == 0
                    &&& final(self).pending() == Seq::<PageState>::empty()
                },
                Action::Enroll { identity } => {
                    &&& identity@ == old(self).visit_id()
                    &&& final(self).enrolled() == old(self).enrolled().push(identity@)
                    &&& !old(self).enrolled().contains(identity@)
                    &&& final(self).expansions() == old(self).expansions()
                    &&& (forall|id: Seq<char>| (#[trigger] final(self).discovered(id))
                        <==> old(self).discovered(id))
                    &&& !final(self).awaiting()
                    &&& final(self).discovered(identity@)
                    &&& final(self).pending() == old(self).pending()
                    &&& (old(self).visit_distance() <= 1 ==> final(self).expand_due()
                        && final(self).expand_id() == identity@)
                    &&& (old(self).visit_distance() > 1 ==> !final(self).visit_due()
                        && !final(self).expand_due() && !final(self).awaiting())
                },
                Action::Edge { source, target } => {
                    &&& source@ == old(self).page_id()
                    &&& target@ == old(self).page_items()[old(self).page_index() as int]
                    &&& final(self).enrolled() == old(self).enrolled()
                    &&& final(self).expansions() == old(self).expansions()
                    &&& !final(self).awaiting()
                    &&& old(self).expansions().contains(source@)
                    &&& final(self).discovered(target@)
                    &&& (forall|id: Seq<char>| (#[trigger] final(self).discovered(id))
                        <==> old(self).discovered(id) || id == target@)
                    &&& (!old(self).discovered(target@) ==> final(self).visit_due()
                        && final(self).visit_id() == target@
                        && final(self).first_distance(target@)
                            == old(self).first_distance(old(self).page_id()) + 1)
                    &&& (old(self).discovered(target@)
                        && (old(self).page_index() + 1 < old(self).page_items().len()
                            || old(self).page_next() is Some)
                        ==> final(self).mid_page()
                            && final(self).page_id() == old(self).page_id()
                            && final(self).page_items() == old(self).page_items()
                            && final(self).page_index() == old(self).page_index() + 1
                            && final(self).page_next() == old(self).page_next())
                    &&& (old(self).page_index() + 1 < old(self).page_items().len()
                            || old(self).page_next() is Some
                        ==> final(self).pending() == old(self).pending().update(
                            old(self).pending().len() - 1,
                            (old(self).page_id(), old(self).page_items(),
                                (old(self).page_index() + 1) as nat, old(self).page_next()),
                        ))
                    &&& (old(self).page_index() + 1 == old(self).page_items().len()
                            && old(self).page_next() is None
                        ==> final(self).pending() == old(self).pending().drop_last())
                },
                Action::Fetch { identity, cursor } => {
                    &&& final(self).enrolled() == old(self).enrolled()
                    &&& (forall|id: Seq<char>| (#[trigger] final(self).discovered(id))
                        <==> old(self).discovered(id))
                    &&& final(self).awaiting()
                    &&& final(self).await_id() == identity@
                    &&& final(self).await_cursor() == cursor.deep_view()
                    &&& (cursor is None <==> old(self).expand_due())
                    &&& (cursor is None ==> identity@ == old(self).expand_id()
                        && final(self).expansions() == old(self).expansions().push(identity@)
                        && !old(self).expansions().contains(identity@)
                        && final(self).first_distance(identity@) <= 1
                        && final(self).pending() == old(self).pending())
                    &&& (cursor is Some ==> old(self).continuation_due()
                        && identity@ == old(self).page_id()
                        && cursor.deep_view() == old(self).page_next()
                        && final(self).expansions() == old(self).expansions()
                        && final(self).pending() == old(self).pending().drop_last())
                },
            }),
            old(self).enrolled().len() == 0
                ==> (r matches Action::Enroll { identity } && identity@ == old(self).root()),
    {
        proof {
            assert(self.stack@ =~= old(self).stack@.subrange(0, self.stack@.len() as int));
        }
        loop
            invariant
                self.wf(),
                !self.awaiting(),
                self.root() == old(self).root(),
                self.enrolled() == old(self).enrolled(),
                self.expansions() == old(self).expansions(),
                self.attr_done@ == old(self).attr_done@,
                self.follows_done@ == old(self).follows_done@,
                self.first_dist@ == old(self).first_dist@,
                self.stack@.len() <= old(self).stack@.len(),
                self.stack@ == old(self).stack@.subrange(0, self.stack@.len() as int),
                live_len(self.stack@) == live_len(old(self).stack@),
            decreases self.stack@.len(),
        {
            let ghost pre = *self;
            let n = self.stack.len();
            if n == 0 {
                proof {
                    if old(self).enrolled().len() == 0 {
                        assert(old(self).stack@.len() == 1);
                        assert(!finished_frame(old(self).stack@[0]));
                        assert(live_len(old(self).stack@) == 1);
                        assert(false);
                    }
                    lemma_live_len(old(self).stack@);
                    assert(old(self).exhausted());
                    lemma_pending_prefix(old(self).stack@, self.stack@);
                    assert(self.pending() =~= Seq::<PageState>::empty());
                }
                return Action::Done;
            }
            let f = match self.stack.pop() {
                Some(f) => f,
                None => {
                    proof {
                        assert(false);
                    }
                    return Action::Done;
                },
            };
            proof {
                assert(f == pre.stack@.last());
                assert(self.stack@ =~= pre.stack@.drop_last());
                assert forall|i: int| 0 <= i < self.stack@.len()
                    implies #[trigger] self.stack@[i] == pre.stack@[i] by {}
            }
            match f {
                Frame::Visit { identity, distance } => {
                    proof {
                        // A due visit is never already enrolled, so the
                        // enrollment below always happens.
                        assert(!pre.attr_done@.contains(identity@));
                    }
                    let newly = self.attr_done.test_and_insert(&identity);
                    proof {
                        assert(newly);
                    }
                    self.enroll_log = Ghost(self.enroll_log@.push(identity@));
                    if distance <= 1 {
                        let id2 = identity.clone();
                        self.stack.push(Frame::Expand { identity: id2, distance });
                        proof {
                            assert(self.stack@ =~= pre.stack@.drop_last().push(
                                Frame::Expand { identity, distance },
                            ));
                        }
                    }
                    proof {
                        let st0 = pre.stack@;
                        let st1 = self.stack@;
                        assert(fid(st0.last()) == identity@);
                        assert(fdist(st0.last()) == distance as nat);
                        if distance <= 1 {
                            assert(st1.len() == st0.len());
                            assert(st1.last() == (Frame::Expand { identity, distance }));
                            assert forall|i: int| 0 <= i < st1.len() - 1
                                implies #[trigger] st1[i] == st0[i] by {}
                            assert(fid(st1.last()) == fid(st0.last()));
                            assert(fdist(st1.last()) == fdist(st0.last()));
                        }
                        // Dedup indices other than attr_done are untouched;
                        // the frame invariants survive the top replacement.
                        assert(self.frames_ok()) by {
                            assert forall|i: int| 0 <= i < self.stack@.len()
                                implies frame_ok(#[trigger] self.stack@[i])
                                    && self.follows_done@.contains(fid(self.stack@[i]))
                                    && self.first_dist@.contains_key(fid(self.stack@[i]))
                                    && self.first_dist@[fid(self.stack@[i])] == fdist(self.stack@[i])
                                    && !(self.stack@[i] is Await)
                                    && (is_active(self.stack@[i])
                                        ==> !self.expand_log@.contains(fid(self.stack@[i])))
                                    && (is_started(self.stack@[i])
                                        ==> self.expand_log@.contains(fid(self.stack@[i])))
                                    && (i < self.stack@.len() - 1 ==> self.stack@[i] is Items) by {
                                if i < self.stack@.len() - 1 || !(distance <= 1) {
                                    assert(self.stack@[i] == pre.stack@[i]);
                                    assert(!(pre.stack@[i] is Await));
                                    if i < self.stack@.len() - 1 {
                                        assert(pre.stack@[i] is Items);
                                    }
                                } else {
                                    assert(self.stack@[i] == (Frame::Expand { identity, distance }));
                                }
                            }
                            assert(self.stack@.len() > 0 && self.stack@.last() is Visit
                                ==> !self.attr_done@.contains(fid(self.stack@.last()))) by {
                                if self.stack@.len() > 0 && self.stack@.last() is Visit {
                                    if distance <= 1 {
                                        assert(self.stack@.last() is Expand);
                                    } else {
                                        assert(self.stack@.last() == pre.stack@[pre.stack@.len() - 2]);
                                        assert(pre.stack@[pre.stack@.len() - 2] is Items);
                                    }
                                    assert(false);
                                }
                            }
                        }
                        assert(self.complete_ok()) by {
                            assert forall|id: Seq<char>|
                                (#[trigger] self.follows_done@.contains(id))
                                    && self.first_dist@.contains_key(id)
                                    && self.first_dist@[id] <= 1
                                    && !self.expand_log@.contains(id)
                                implies (exists|i: int| 0 <= i < self.stack@.len()
                                    && is_active(#[trigger] self.stack@[i])
                                    && fid(self.stack@[i]) == id) by {
                                let w = choose|i: int| 0 <= i < pre.stack@.len()
                                    && is_active(#[trigger] pre.stack@[i]) && fid(pre.stack@[i]) == id;
                                if w < pre.stack@.len() - 1 {
                                    assert(self.stack@[w] == pre.stack@[w]);
                                } else {
                                    // the popped visit itself: only possible within budget
                                    assert(id == identity@);
                                    assert(self.first_dist@[id] == distance as nat);
                                    assert(distance <= 1);
                                    assert(is_active(self.stack@[self.stack@.len() - 1]));
                                    assert(fid(self.stack@[self.stack@.len() - 1]) == id);
                                }
                            }
                        }
                        assert(self.enroll_ok()) by {
                            assert forall|id: Seq<char>| #[trigger] self.attr_done@.contains(id)
                                implies self.follows_done@.contains(id) by {
                                if newly {
                                    lemma_push_contains(pre.attr_done@, identity@, id);
                                }
                                if id == identity@ {
                                    assert(pre.follows_done@.contains(identity@));
                                }
                            }
                            assert forall|id: Seq<char>| #[trigger] self.follows_done@.contains(id)
                                && !self.attr_done@.contains(id)
                                implies (exists|i: int| 0 <= i < self.stack@.len()
                                    && (#[trigger] self.stack@[i]) is Visit
                                    && fid(self.stack@[i]) == id) by {
                                if newly {
                                    lemma_push_contains(pre.attr_done@, identity@, id);
                                }
                                assert(!pre.attr_done@.contains(id));
                                let w = choose|i: int| 0 <= i < pre.stack@.len()
                                    && (#[trigger] pre.stack@[i]) is Visit && fid(pre.stack@[i]) == id;
                                if w < pre.stack@.len() - 1 {
                                    assert(self.stack@[w] == pre.stack@[w]);
                                } else {
                                    assert(id == identity@);
                                    if newly {
                                        assert(self.attr_done@[self.attr_done@.len() - 1] == identity@);
                                        assert(self.attr_done@.contains(identity@));
                                    } else {
                                        assert(pre.attr_done@.contains(identity@));
                                    }
                                    assert(false);
                                }
                            }
                        }
                        if pre.enroll_log@.len() == 0 {
                            assert(pre.stack@.len() == 1);
                            assert(fid(pre.stack@[0]) == pre.root_id@);
                            assert(identity@ == pre.root_id@);
                        }
                        assert(self.attr_done@ == pre.attr_done@.push(identity@));
                        assert(self.enroll_log@[0] == pre.enroll_log@.push(identity@)[0]);
                        lemma_live_top_of_prefix(old(self).stack@, pre.stack@);
                        assert(old(self).visit_due());
                        assert(old(self).visit_id() == identity@);
                        assert(old(self).visit_distance() == distance as nat);
                        if distance <= 1 {
                            assert(!finished_frame(self.stack@.last()));
                            assert(live_len(self.stack@) == self.stack@.len() as int);
                            assert(self.expand_due());
                            assert(self.expand_id() == identity@);
                        }
                        lemma_pending_prefix(old(self).stack@, st0);
                        assert(pending_of(st0) == pending_of(st0.drop_last()));
                        if distance <= 1 {
                            lemma_pending_push(st0.drop_last(), st1.last());
                            assert(st1 =~= st0.drop_last().push(st1.last()));
                        } else {
                            lemma_live_len(st1);
                            if live_len(st1) > 0 {
                                assert(st1[live_len(st1) - 1] == st0[live_len(st1) - 1]);
                                assert(st1[live_len(st1) - 1] is Items);
                            }
                            assert(!self.visit_due());
                            assert(!self.expand_due());
                            assert(!self.awaiting());
                        }
                        assert(self.pending() == old(self).pending());
                    }
                    return Action::Enroll { identity };
                },
                Frame::Expand { identity, distance } => {
                    let id2 = identity.clone();
                    self.stack.push(Frame::Await { identity: id2, distance, cursor: None });
                    self.expand_log = Ghost(self.expand_log@.push(identity@));
                    proof {
                        let st0 = pre.stack@;
                        let st1 = self.stack@;
                        assert(st1 =~= st0.drop_last().push(
                            Frame::Await { identity, distance, cursor: None },
                        ));
                        assert(fid(st0.last()) == identity@);
                        assert(is_active(st0.last()));
                        assert(!pre.expand_log@.contains(identity@));
                        assert(fdist(st0.last()) == distance as nat);
                        assert(frame_ok(st0.last()));
                        assert(distance <= 1);
                        assert(self.expand_log@ == pre.expand_log@.push(identity@));
                        assert(self.expand_log@.last() == identity@);
                        assert(self.expand_log@.contains(identity@));
                        assert(self.expand_log@.no_duplicates()) by {
                            assert forall|i: int, j: int|
                                0 <= i < self.expand_log@.len() && 0 <= j < self.expand_log@.len() && i != j
                                implies self.expand_log@[i] != self.expand_log@[j] by {
                                if i == pre.expand_log@.len() {
                                    assert(self.expand_log@[j] == pre.expand_log@[j]);
                                    if self.expand_log@[j] == identity@ {
                                        assert(pre.expand_log@.contains(identity@));
                                    }
                                } else if j == pre.expand_log@.len() {
                                    assert(self.expand_log@[i] == pre.expand_log@[i]);
                                    if self.expand_log@[i] == identity@ {
                                        assert(pre.expand_log@.contains(identity@));
                                    }
                                } else {
                                    assert(self.expand_log@[i] == pre.expand_log@[i]);
                                    assert(self.expand_log@[j] == pre.expand_log@[j]);
                                }
                            }
                        }
                        assert forall|id: Seq<char>| #[trigger] self.expand_log@.contains(id)
                            implies self.follows_done@.contains(id)
                                && self.first_dist@.contains_key(id)
                                && self.first_dist@[id] <= 1 by {
                            lemma_push_contains(pre.expand_log@, identity@, id);
                        }
                        assert(self.frames_ok()) by {
                            assert forall|i: int| 0 <= i < st1.len()
                                implies frame_ok(#[trigger] st1[i])
                                    && self.follows_done@.contains(fid(st1[i]))
                                    && self.first_dist@.contains_key(fid(st1[i]))
                                    && self.first_dist@[fid(st1[i])] == fdist(st1[i])
                                    && (st1[i] is Await ==> i == st1.len() - 1)
                                    && (is_active(st1[i]) ==> !self.expand_log@.contains(fid(st1[i])))
                                    && (is_started(st1[i]) ==> self.expand_log@.contains(fid(st1[i])))
                                    && (i < st1.len() - 1 ==> st1[i] is Items) by {
                                if i < st1.len() - 1 {
                                    assert(st1[i] == st0[i]);
                                    assert(!(st0[i] is Await));
                                    assert(st0[i] is Items);
                                    if is_active(st1[i]) {
                                        lemma_push_contains(pre.expand_log@, identity@, fid(st1[i]));
                                        assert(fid(st1[i]) != identity@);
                                    }
                                    if is_started(st1[i]) {
                                        lemma_push_contains(pre.expand_log@, identity@, fid(st1[i]));
                                    }
                                } else {
                                    assert(st1[i] == (Frame::Await { identity, distance, cursor: None::<String> }));
                                }
                            }
                            assert(st1.last() is Await);
                        }
                        assert(self.complete_ok()) by {
                            assert forall|id: Seq<char>|
                                (#[trigger] self.follows_done@.contains(id))
                                    && self.first_dist@.contains_key(id)
                                    && self.first_dist@[id] <= 1
                                    && !self.expand_log@.contains(id)
                                implies (exists|i: int| 0 <= i < st1.len()
                                    && is_active(#[trigger] st1[i]) && fid(st1[i]) == id) by {
                                lemma_push_contains(pre.expand_log@, identity@, id);
                                assert(!pre.expand_log@.contains(id));
                                let w = choose|i: int| 0 <= i < st0.len()
                                    && is_active(#[trigger] st0[i]) && fid(st0[i]) == id;
                                assert(w < st0.len() - 1);
                                assert(st1[w] == st0[w]);
                            }
                        }
                        assert(self.enroll_ok()) by {
                            assert forall|id: Seq<char>| #[trigger] self.follows_done@.contains(id)
                                && !self.attr_done@.contains(id)
                                implies (exists|i: int| 0 <= i < st1.len()
                                    && (#[trigger] st1[i]) is Visit && fid(st1[i]) == id) by {
                                let w = choose|i: int| 0 <= i < st0.len()
                                    && (#[trigger] st0[i]) is Visit && fid(st0[i]) == id;
                                assert(w < st0.len() - 1);
                                assert(st1[w] == st0[w]);
                            }
                        }
                        if pre.enroll_log@.len() == 0 {
                            assert(pre.stack@[0] is Visit);
                            assert(false);
                        }
                        assert(self.awaiting());
                        assert(self.await_id() == identity@);
                        assert(self.await_cursor() == None::<Seq<char>>);
                        lemma_live_top_of_prefix(old(self).stack@, pre.stack@);
                        assert(old(self).expand_due());
                        assert(old(self).expand_id() == identity@);
                        assert(self.first_dist@[identity@] <= 1);
                        lemma_pending_prefix(old(self).stack@, st0);
                        assert(pending_of(st0) == pending_of(st0.drop_last()));
                        lemma_pending_push(st0.drop_last(), st1.last());
                        assert(st1 =~= st0.drop_last().push(st1.last()));
                        assert(self.pending() == old(self).pending());
                    }
                    return Action::Fetch { identity, cursor: None };
                },
                Frame::Await { identity: _, distance: _, cursor: _ } => {
                    proof {
                        assert(pre.stack@.last() is Await);
                        assert(false);
                    }
                    return Action::Done;
                },
                Frame::Items { identity, distance, targets, index, next } => {
                    proof {
                        assert(frame_ok(pre.stack@.last()));
                        assert(index <= targets@.len());
                        assert(distance <= 1);
                        assert(is_started(pre.stack@.last()));
                        assert(pre.expand_log@.contains(identity@));
                    }
                    if index < targets.len() {
                        let source = identity.clone();
                        let target = targets[index].clone();
                        let newly = self.follows_done.test_and_insert(&target);
                        if newly {
                            self.first_dist = Ghost(
                                self.first_dist@.insert(target@, (distance + 1) as nat),
                            );
                        }
                        let new_index = index + 1;
                        self.stack.push(Frame::Items { identity, distance, targets, index: new_index, next });
                        if newly {
                            let t2 = target.clone();
                            self.stack.push(Frame::Visit { identity: t2, distance: distance + 1 });
                        }
                        proof {
                            let st0 = pre.stack@;
                            let st1 = self.stack@;
                            let items1 = st1[st0.len() - 1];
                            assert(fid(items1) == identity@);
                            assert(fdist(items1) == distance as nat);
                            assert(items1 is Items);
                            assert(frame_ok(items1));
                            assert forall|i: int| 0 <= i < st0.len() - 1
                                implies #[trigger] st1[i] == st0[i] by {}
                            if newly {
                                assert(st1.len() == st0.len() + 1);
                                assert(st1.last() == (Frame::Visit { identity: target, distance: (distance + 1) as u8 }));
                                assert(fid(st1.last()) == target@);
                                assert(self.follows_done@ == pre.follows_done@.push(target@));
                                assert(!pre.follows_done@.contains(target@));
                                assert(!pre.first_dist@.contains_key(target@));
                                assert(self.first_dist@ == pre.first_dist@.insert(target@, (distance + 1) as nat));
                            } else {
                                assert(st1.len() == st0.len());
                                assert(self.follows_done@ == pre.follows_done@);
                                assert(self.first_dist@ == pre.first_dist@);
                            }
                            assert(self.dom_ok()) by {
                                assert forall|id: Seq<char>|
                                    ((#[trigger] self.first_dist@.contains_key(id))
                                        <==> (#[trigger] self.follows_done@.contains(id))) by {
                                    if newly {
                                        lemma_push_contains(pre.follows_done@, target@, id);
                                    }
                                }
                                assert forall|id: Seq<char>| #[trigger] self.first_dist@.contains_key(id)
                                    implies self.first_dist@[id] <= 2 by {
                                    if newly && id == target@ {
                                        assert(self.first_dist@[id] == (distance + 1) as nat);
                                    } else {
                                        assert(self.first_dist@[id] == pre.first_dist@[id]);
                                        assert(pre.first_dist@.contains_key(id));
                                    }
                                }
                            }
                            assert(self.log_ok()) by {
                                assert forall|id: Seq<char>| #[trigger] self.expand_log@.contains(id)
                                    implies self.follows_done@.contains(id)
                                        && self.first_dist@.contains_key(id)
                                        && self.first_dist@[id] <= 1 by {
                                    if newly {
                                        lemma_push_contains(pre.follows_done@, target@, id);
                                        assert(id != target@);
                                    }
                                }
                            }
                            assert(self.frames_ok()) by {
                                if newly {
                                    assert(!pre.follows_done@.contains(target@));
                                }
                                assert forall|i: int| 0 <= i < st1.len()
                                    implies frame_ok(#[trigger] st1[i])
                                        && self.follows_done@.contains(fid(st1[i]))
                                        && self.first_dist@.contains_key(fid(st1[i]))
                                        && self.first_dist@[fid(st1[i])] == fdist(st1[i])
                                        && !(st1[i] is Await)
                                        && (is_active(st1[i]) ==> !self.expand_log@.contains(fid(st1[i])))
                                        && (is_started(st1[i]) ==> self.expand_log@.contains(fid(st1[i])))
                                        && (i < st1.len() - 1 ==> st1[i] is Items) by {
                                    if i < st0.len() - 1 {
                                        assert(st1[i] == st0[i]);
                                        assert(!(st0[i] is Await));
                                        assert(st0[i] is Items);
                                        assert(pre.follows_done@.contains(fid(st0[i])));
                                        if newly {
                                            lemma_push_contains(pre.follows_done@, target@, fid(st0[i]));
                                            assert(fid(st0[i]) != target@);
                                        }
                                    } else if i == st0.len() - 1 {
                                        assert(st1[i] == items1);
                                        if newly {
                                            lemma_push_contains(pre.follows_done@, target@, identity@);
                                            assert(identity@ != target@);
                                        }
                                    } else {
                                        assert(newly && i == st1.len() - 1);
                                        assert(st1[i] is Visit);
                                        assert(fid(st1[i]) == target@);
                                        assert(self.follows_done@.last() == target@);
                                        assert(self.follows_done@.contains(target@));
                                        assert(!self.expand_log@.contains(target@)) by {
                                            if self.expand_log@.contains(target@) {
                                                assert(pre.follows_done@.contains(target@));
                                            }
                                        }
                                    }
                                }
                                assert forall|i: int, j: int|
                                    #![trigger st1[i], st1[j]]
                                    0 <= i < j < st1.len()
                                    implies fid(st1[i]) != fid(st1[j]) by {
                                    if newly && j == st1.len() - 1 {
                                        assert(fid(st1[j]) == target@);
                                        if i < st0.len() - 1 {
                                            assert(st1[i] == st0[i]);
                                        }
                                        assert(pre.follows_done@.contains(fid(st1[i])));
                                        assert(!pre.follows_done@.contains(target@));
                                    } else {
                                        if i < st0.len() - 1 {
                                            assert(st1[i] == st0[i]);
                                        }
                                        if j < st0.len() - 1 {
                                            assert(st1[j] == st0[j]);
                                        }
                                        assert(fid(st1[i]) == fid(st0[i]));
                                        assert(fid(st1[j]) == fid(st0[j]));
                                    }
                                }
                                assert(st1.len() > 0 && st1.last() is Visit
                                    ==> !self.attr_done@.contains(fid(st1.last()))) by {
                                    if st1.len() > 0 && st1.last() is Visit {
                                        if !newly {
                                            assert(st1.last() == items1);
                                            assert(false);
                                        }
                                        assert(fid(st1.last()) == target@);
                                        if self.attr_done@.contains(target@) {
                                            assert(pre.follows_done@.contains(target@));
                                        }
                                        assert(!self.attr_done@.contains(target@));
                                    }
                                }
                            }
                            assert(self.complete_ok()) by {
                                assert forall|id: Seq<char>|
                                    (#[trigger] self.follows_done@.contains(id))
                                        && self.first_dist@.contains_key(id)
                                        && self.first_dist@[id] <= 1
                                        && !self.expand_log@.contains(id)
                                    implies (exists|i: int| 0 <= i < st1.len()
                                        && is_active(#[trigger] st1[i]) && fid(st1[i]) == id) by {
                                    if newly && id == target@ {
                                        assert(is_active(st1[st1.len() - 1]));
                                        assert(fid(st1[st1.len() - 1]) == target@);
                                    } else {
                                        if newly {
                                            lemma_push_contains(pre.follows_done@, target@, id);
                                        }
                                        assert(pre.follows_done@.contains(id));
                                        assert(pre.first_dist@.contains_key(id));
                                        assert(pre.first_dist@[id] == self.first_dist@[id]);
                                        let w = choose|i: int| 0 <= i < st0.len()
                                            && is_active(#[trigger] st0[i]) && fid(st0[i]) == id;
                                        assert(w < st0.len() - 1);
                                        assert(st1[w] == st0[w]);
                                    }
                                }
                            }
                            assert(self.enroll_ok()) by {
                                assert forall|id: Seq<char>| #[trigger] self.attr_done@.contains(id)
                                    implies self.follows_done@.contains(id) by {
                                    if newly {
                                        lemma_push_contains(pre.follows_done@, target@, id);
                                    }
                                }
                                assert forall|id: Seq<char>| #[trigger] self.follows_done@.contains(id)
                                    && !self.attr_done@.contains(id)
                                    implies (exists|i: int| 0 <= i < st1.len()
                                        && (#[trigger] st1[i]) is Visit && fid(st1[i]) == id) by {
                                    if newly && id == target@ {
                                        assert(st1[st1.len() - 1] is Visit);
                                        assert(fid(st1[st1.len() - 1]) == target@);
                                    } else {
                                        if newly {
                                            lemma_push_contains(pre.follows_done@, target@, id);
                                        }
                                        assert(pre.follows_done@.contains(id));
                                        let w = choose|i: int| 0 <= i < st0.len()
                                            && (#[trigger] st0[i]) is Visit && fid(st0[i]) == id;
                                        assert(w < st0.len() - 1);
                                        assert(st1[w] == st0[w]);
                                    }
                                }
                            }
                            assert(self.root_ok()) by {
                                if pre.enroll_log@.len() == 0 {
                                    assert(pre.stack@[0] is Visit);
                                    assert(false);
                                }
                                if newly {
                                    assert(pre.follows_done@.contains(pre.root_id@));
                                    assert(pre.root_id@ != target@);
                                    assert(self.follows_done@.contains(pre.root_id@)) by {
                                        lemma_push_contains(pre.follows_done@, target@, pre.root_id@);
                                    }
                                }
                            }
                            assert(!self.awaiting());
                            assert(self.discovered(target@)) by {
                                if newly {
                                    assert(self.follows_done@.last() == target@);
                                }
                            }
                            assert(!finished_frame(st0.last()));
                            lemma_live_top_of_prefix(old(self).stack@, st0);
                            assert(old(self).edge_due());
                            assert(old(self).page_id() == identity@);
                            assert(old(self).page_index() == index as nat);
                            assert(target@ == old(self).page_items()[old(self).page_index() as int]);
                            assert(old(self).first_distance(identity@) == distance as nat);
                            assert forall|id: Seq<char>| (#[trigger] self.discovered(id))
                                <==> pre.discovered(id) || id == target@ by {
                                if newly {
                                    lemma_push_contains(pre.follows_done@, target@, id);
                                }
                            }
                            assert forall|id: Seq<char>| #[trigger] pre.discovered(id)
                                implies self.first_dist@[id] == pre.first_dist@[id] by {
                                if newly {
                                    assert(id != target@);
                                }
                            }
                            if newly {
                                assert(!finished_frame(st1.last()));
                                assert(live_len(st1) == st1.len() as int);
                                assert(self.visit_due());
                                assert(self.visit_id() == target@);
                                assert(self.first_dist@[target@] == (distance + 1) as nat);
                            } else if index + 1 < targets@.len() || next is Some {
                                assert(st1.last() == items1);
                                assert(!finished_frame(st1.last()));
                                assert(live_len(st1) == st1.len() as int);
                                assert(self.mid_page());
                                assert(self.page_id() == identity@);
                                assert(self.page_index() == (index + 1) as nat);
                                assert(self.page_next() == next.deep_view());
                            }
                            lemma_pending_prefix(old(self).stack@, st0);
                            let d0 = st0.drop_last();
                            assert(pending_of(st0) == pending_of(d0).push(page_of(st0.last())));
                            lemma_pending_push(d0, items1);
                            if newly {
                                lemma_pending_push(d0.push(items1), st1.last());
                                assert(st1 =~= d0.push(items1).push(st1.last()));
                            } else {
                                assert(st1 =~= d0.push(items1));
                            }
                            assert(page_of(items1) == (identity@, targets.deep_view(),
                                (index + 1) as nat, next.deep_view()));
                            if index + 1 < targets@.len() || next is Some {
                                assert(!finished_frame(items1));
                                assert(pending_of(st1) == pending_of(d0).push(page_of(items1)));
                                assert(self.pending() =~= old(self).pending().update(
                                    old(self).pending().len() - 1, page_of(items1)));
                            } else {
                                assert(finished_frame(items1));
                                assert(pending_of(st1) == pending_of(d0));
                                assert(self.pending() =~= old(self).pending().drop_last());
                            }
                        }
                        return Action::Edge { source, target };
                    }
                    match next {
                        Some(c) => {
                            let id2 = identity.clone();
                            let c2 = c.clone();
                            self.stack.push(Frame::Await { identity: id2, distance, cursor: Some(c2) });
                            proof {
                                let st0 = pre.stack@;
                                let st1 = self.stack@;
                                assert(st1 =~= st0.drop_last().push(
                                    Frame::Await { identity, distance, cursor: Some(c) },
                                ));
                                assert(fid(st1.last()) == identity@);
                                assert(fdist(st1.last()) == distance as nat);
                                assert(self.frames_ok()) by {
                                    assert forall|i: int| 0 <= i < st1.len()
                                        implies frame_ok(#[trigger] st1[i])
                                            && self.follows_done@.contains(fid(st1[i]))
                                            && self.first_dist@.contains_key(fid(st1[i]))
                                            && self.first_dist@[fid(st1[i])] == fdist(st1[i])
                                            && (st1[i] is Await ==> i == st1.len() - 1)
                                            && (is_active(st1[i]) ==> !self.expand_log@.contains(fid(st1[i])))
                                            && (is_started(st1[i]) ==> self.expand_log@.contains(fid(st1[i])))
                                            && (i < st1.len() - 1 ==> st1[i] is Items) by {
                                        if i < st1.len() - 1 {
                                            assert(st1[i] == st0[i]);
                                            assert(!(st0[i] is Await));
                                            assert(st0[i] is Items);
                                        } else {
                                            assert(st1[i] == (Frame::Await { identity, distance, cursor: Some(c) }));
                                        }
                                    }
                                    assert(st1.last() is Await);
                                }
                                assert(self.complete_ok()) by {
                                    assert forall|id: Seq<char>|
                                        (#[trigger] self.follows_done@.contains(id))
                                            && self.first_dist@.contains_key(id)
                                            && self.first_dist@[id] <= 1
                                            && !self.expand_log@.contains(id)
                                        implies (exists|i: int| 0 <= i < st1.len()
                                            && is_active(#[trigger] st1[i]) && fid(st1[i]) == id) by {
                                        let w = choose|i: int| 0 <= i < st0.len()
                                            && is_active(#[trigger] st0[i]) && fid(st0[i]) == id;
                                        assert(w < st0.len() - 1);
                                        assert(st1[w] == st0[w]);
                                    }
                                }
                                assert(self.enroll_ok()) by {
                                    assert forall|id: Seq<char>| #[trigger] self.follows_done@.contains(id)
                                        && !self.attr_done@.contains(id)
                                        implies (exists|i: int| 0 <= i < st1.len()
                                            && (#[trigger] st1[i]) is Visit && fid(st1[i]) == id) by {
                                        let w = choose|i: int| 0 <= i < st0.len()
                                            && (#[trigger] st0[i]) is Visit && fid(st0[i]) == id;
                                        assert(w < st0.len() - 1);
                                        assert(st1[w] == st0[w]);
                                    }
                                }
                                if pre.enroll_log@.len() == 0 {
                                    assert(pre.stack@[0] is Visit);
                                    assert(false);
                                }
                                assert(self.awaiting());
                                assert(self.await_cursor() == Some(c@));
                                assert(!finished_frame(st0.last()));
                                lemma_live_top_of_prefix(old(self).stack@, st0);
                                assert(old(self).continuation_due());
                                assert(old(self).page_id() == identity@);
                                assert(old(self).page_next() == Some(c@));
                                lemma_pending_prefix(old(self).stack@, st0);
                                assert(pending_of(st0) == pending_of(st0.drop_last()).push(
                                    page_of(st0.last()),
                                ));
                                lemma_pending_push(st0.drop_last(), st1.last());
                                assert(pending_of(st1) == pending_of(st0.drop_last()));
                                assert(self.pending() =~= old(self).pending().drop_last());
                            }
                            return Action::Fetch { identity, cursor: Some(c) };
                        },
                        None => {
                            proof {
                                let st0 = pre.stack@;
                                let st1 = self.stack@;
                                assert(self.complete_ok()) by {
                                    assert forall|id: Seq<char>|
                                        (#[trigger] self.follows_done@.contains(id))
                                            && self.first_dist@.contains_key(id)
                                            && self.first_dist@[id] <= 1
                                            && !self.expand_log@.contains(id)
                                        implies (exists|i: int| 0 <= i < st1.len()
                                            && is_active(#[trigger] st1[i]) && fid(st1[i]) == id) by {
                                        let w = choose|i: int| 0 <= i < st0.len()
                                            && is_active(#[trigger] st0[i]) && fid(st0[i]) == id;
                                        assert(w < st0.len() - 1);
                                        assert(st1[w] == st0[w]);
                                    }
                                }
                                assert(self.enroll_ok()) by {
                                    assert forall|id: Seq<char>| #[trigger] self.follows_done@.contains(id)
                                        && !self.attr_done@.contains(id)
                                        implies (exists|i: int| 0 <= i < st1.len()
                                            && (#[trigger] st1[i]) is Visit && fid(st1[i]) == id) by {
                                        let w = choose|i: int| 0 <= i < st0.len()
                                            && (#[trigger] st0[i]) is Visit && fid(st0[i]) == id;
                                        assert(w < st0.len() - 1);
                                        assert(st1[w] == st0[w]);
                                    }
                                }
                                if pre.enroll_log@.len() == 0 {
                                    assert(pre.stack@[0] is Visit);
                                    assert(false);
                                }
                                if st1.len() > 0 {
                                    assert(st1.last() == st0[st0.len() - 2]);
                                    assert(st1.last() is Items);
                                }
                                // The popped page was finished, so the live
                                // prefix — and with it the pending work the
                                // contract speaks of — is unchanged.
                                assert(finished_frame(st0.last()));
                                assert(live_len(st1) == live_len(st0));
                                assert forall|i: int| 0 <= i < st1.len()
                                    implies #[trigger] st1[i] == old(self).stack@[i] by {
                                    assert(st1[i] == st0[i]);
                                    assert(st0[i] == old(self).stack@.subrange(0, st0.len() as int)[i]);
                                }
                                assert(st1 =~= old(self).stack@.subrange(0, st1.len() as int));
                            }
                        },
                    }
                },
            }
        }
    }

    /// Feeds back the result of the outstanding fetch: the follow targets of
    /// one page, in service order, and the continuation cursor, if any. The
    /// page may be empty while a cursor is still present; pagination then
    /// simply continues.
    pub fn on_page(&mut self, targets: Vec<String>, next_cursor: Option<String>)
        requires
            old(self).wf(),
            old(self).awaiting(),
        ensures
            final(self).wf(),
            !final(self).awaiting(),
            !final(self).finished(),
            final(self).root() == old(self).root(),
            final(self).enrolled() == old(self).enrolled(),
            final(self).expansions() == old(self).expansions(),
            forall|id: Seq<char>| (#[trigger] final(self).discovered(id))
                <==> old(self).discovered(id),
            forall|id: Seq<char>| #[trigger] old(self).discovered(id)
                ==> final(self).first_distance(id) == old(self).first_distance(id),
            !final(self).visit_due(),
            !final(self).expand_due(),
            !(targets@.len() == 0 && next_cursor is None) ==> final(self).mid_page()
                && final(self).page_id() == old(self).await_id()
                && final(self).page_items() == targets.deep_view()
                && final(self).page_index() == 0
                && final(self).page_next() == next_cursor.deep_view()
                && final(self).pending() == old(self).pending().push(
                    (old(self).await_id(), targets.deep_view(), 0nat, next_cursor.deep_view()),
                ),
            targets@.len() == 0 && next_cursor is None
                ==> final(self).pending() == old(self).pending(),
    {
        let ghost pre = *self;
        let f = match self.stack.pop() {
            Some(f) => f,
            None => {
                proof {
                    assert(false);
                }
                return;
            },
        };
        match f {
            Frame::Await { identity, distance, cursor: _ } => {
                self.stack.push(Frame::Items { identity, distance, targets, index: 0, next: next_cursor });
                proof {
                    let st0 = pre.stack@;
                    let st1 = self.stack@;
                    assert(st0.last() is Await);
                    assert(fid(st0.last()) == identity@);
                    assert(fdist(st0.last()) == distance as nat);
                    assert(st1.len() == st0.len());
                    assert forall|i: int| 0 <= i < st1.len() - 1
                        implies #[trigger] st1[i] == st0[i] by {}
                    assert(fid(st1.last()) == identity@);
                    assert(fdist(st1.last()) == distance as nat);
                    assert(self.frames_ok()) by {
                        assert forall|i: int| 0 <= i < st1.len()
                            implies frame_ok(#[trigger] st1[i])
                                && self.follows_done@.contains(fid(st1[i]))
                                && self.first_dist@.contains_key(fid(st1[i]))
                                && self.first_dist@[fid(st1[i])] == fdist(st1[i])
                                && !(st1[i] is Await)
                                && (is_active(st1[i]) ==> !self.expand_log@.contains(fid(st1[i])))
                                && (is_started(st1[i]) ==> self.expand_log@.contains(fid(st1[i])))
                                && (i < st1.len() - 1 ==> st1[i] is Items) by {
                            if i < st1.len() - 1 {
                                assert(st1[i] == st0[i]);
                                assert(!(st0[i] is Await));
                                assert(st0[i] is Items);
                            }
                        }
                        assert(st1.last() is Items);
                    }
                    assert(self.complete_ok()) by {
                        assert forall|id: Seq<char>|
                            (#[trigger] self.follows_done@.contains(id))
                                && self.first_dist@.contains_key(id)
                                && self.first_dist@[id] <= 1
                                && !self.expand_log@.contains(id)
                            implies (exists|i: int| 0 <= i < st1.len()
                                && is_active(#[trigger] st1[i]) && fid(st1[i]) == id) by {
                            let w = choose|i: int| 0 <= i < st0.len()
                                && is_active(#[trigger] st0[i]) && fid(st0[i]) == id;
                            assert(w < st0.len() - 1);
                            assert(st1[w] == st0[w]);
                        }
                    }
                    assert(self.enroll_ok()) by {
                        assert forall|id: Seq<char>| #[trigger] self.follows_done@.contains(id)
                            && !self.attr_done@.contains(id)
                            implies (exists|i: int| 0 <= i < st1.len()
                                && (#[trigger] st1[i]) is Visit && fid(st1[i]) == id) by {
                            let w = choose|i: int| 0 <= i < st0.len()
                                && (#[trigger] st0[i]) is Visit && fid(st0[i]) == id;
                            assert(w < st0.len() - 1);
                            assert(st1[w] == st0[w]);
                        }
                    }
                    assert(self.root_ok()) by {
                        if pre.enroll_log@.len() == 0 {
                            assert(pre.stack@[0] is Visit);
                            assert(false);
                        }
                    }
                    assert(pending_of(st0) == pending_of(st0.drop_last()));
                    lemma_pending_push(st0.drop_last(), st1.last());
                    assert(st1 =~= st0.drop_last().push(st1.last()));
                    if !(targets@.len() == 0 && next_cursor is None) {
                        assert(!finished_frame(st1.last()));
                        assert(live_len(st1) == st1.len() as int);
                        assert(self.mid_page());
                        assert(page_of(st1.last()) == (fid(st0.last()), targets.deep_view(),
                            0nat, next_cursor.deep_view()));
                        assert(self.pending() == old(self).pending().push(page_of(st1.last())));
                    } else {
                        assert(finished_frame(st1.last()));
                        assert(self.pending() == old(self).pending());
                    }
                    lemma_live_len(st1);
                    if live_len(st1) > 0 {
                        assert(st1[live_len(st1) - 1] is Items) by {
                            if live_len(st1) - 1 < st1.len() - 1 {
                                assert(st1[live_len(st1) - 1] == st0[live_len(st1) - 1]);
                            }
                        }
                    }
                    assert(!self.visit_due());
                    assert(!self.expand_due());
                }
            },
            f => {
                proof {
                    assert(pre.stack@.last() is Await);
                    assert(false);
                }
                self.stack.push(f);
            },
        }
    }

    /// True when the crawl has no work left.
    pub fn is_finished(&self) -> (r: bool)
        ensures
            r == self.finished(),
    {
        self.stack.len() == 0
    }

    /// True while a fetch is outstanding (a page must be fed back next).
    pub fn is_awaiting(&self) -> (r: bool)
        ensures
            r == self.awaiting(),
    {
        let n = self.stack.len();
        if n == 0 {
            false
        } else {
            match &self.stack[n - 1] {
                Frame::Await { .. } => true,
                _ => false,
            }
        }
    }

    /// The number of distinct identities handed to the enrichment stage so
    /// far; at completion, the crawl's summary count.
    pub fn visited_count(&self) -> (n: usize)
        requires
            self.wf(),
        ensures
            n == self.enrolled().len(),
    {
        self.attr_done.len()
    }
}

/// Exactly-once enrollment: no identity is ever handed to the enrichment
/// stage twice, whatever pages were delivered — including replayed ones.
pub proof fn lemma_enrollment_exactly_once(w: Walker)
    requires
        w.wf(),
    ensures
        w.enrolled().no_duplicates(),
{
}

/// Exactly-once expansion: no identity's follow list is ever opened twice,
/// however many edges lead to it.
pub proof fn lemma_expansion_exactly_once(w: Walker)
    requires
        w.wf(),
    ensures
        w.expansions().no_duplicates(),
{
}

/// Root enrollment: whenever anything at all has been enrolled, the root
/// was enrolled first, and it was discovered at distance 0.
pub proof fn lemma_root_enrolled_first(w: Walker)
    requires
        w.wf(),
        w.enrolled().len() > 0,
    ensures
        w.enrolled()[0] == w.root(),
        w.first_distance(w.root()) == 0,
{
}

/// Depth cutoff, one direction: every expansion happened for a discovered
/// identity first reached at distance 0 or 1.
pub proof fn lemma_depth_cutoff(w: Walker, id: Seq<char>)
    requires
        w.wf(),
        w.expansions().contains(id),
    ensures
        w.discovered(id),
        w.first_distance(id) <= 1,
{
}

/// Depth cutoff, other direction: once the crawl is finished, every
/// discovered identity first reached at distance 0 or 1 has had its follow
/// list expanded.
pub proof fn lemma_depth_cutoff_complete(w: Walker, id: Seq<char>)
    requires
        w.wf(),
        w.finished(),
        w.discovered(id),
        w.first_distance(id) <= 1,
    ensures
        w.expansions().contains(id),
{
}

/// Enrollment completeness: once the crawl is finished, the identities
/// handed to the enrichment stage are exactly the discovered ones.
pub proof fn lemma_finished_enrollment_complete(w: Walker, id: Seq<char>)
    requires
        w.wf(),
        w.finished(),
    ensures
        w.discovered(id) <==> w.enrolled().contains(id),
{
}

/// The page being worked through is always the last pending page.
pub proof fn lemma_page_pending(w: Walker)
    requires
        w.wf(),
        w.mid_page(),
    ensures
        w.pending().len() > 0,
        w.pending().last() == (w.page_id(), w.page_items(), w.page_index(), w.page_next()),
{
    let st = w.stack@;
    lemma_live_len(st);
    lemma_pending_live(st);
    let pfx = st.subrange(0, live_len(st));
    assert(pfx.last() == st[live_len(st) - 1]);
    assert(!finished_frame(pfx.last()));
    assert(pending_of(pfx) == pending_of(pfx.drop_last()).push(page_of(pfx.last())));
}

/// When no visit, opening fetch or outstanding fetch is due, the pending
/// pages alone decide what is left: either the last pending page is being
/// worked through, or nothing is pending and the next `step` reports
/// completion.
pub proof fn lemma_quiescent(w: Walker)
    requires
        w.wf(),
        !w.visit_due(),
        !w.expand_due(),
        !w.awaiting(),
    ensures
        w.exhausted() <==> w.pending().len() == 0,
        !w.exhausted() ==> w.mid_page(),
{
    let st = w.stack@;
    lemma_live_len(st);
    lemma_pending_live(st);
    if live_len(st) > 0 {
        let t = st[live_len(st) - 1];
        assert(!finished_frame(t));
        if t is Await {
            assert(live_len(st) - 1 == st.len() - 1);
            assert(w.awaiting());
        }
        assert(t is Items);
        let pfx = st.subrange(0, live_len(st));
        assert(pfx.last() == t);
        assert(pending_of(pfx) == pending_of(pfx.drop_last()).push(page_of(t)));
        assert(w.pending().len() > 0);
        assert(w.mid_page());
    } else {
        assert(st.subrange(0, 0) =~= Seq::<Frame>::empty());
        assert(w.pending() =~= Seq::<PageState>::empty());
    }
}

/// A well-formed crawl is always in exactly one externally relevant state:
/// a visit, an opening fetch, an outstanding fetch or a delivered page is
/// due, or the crawl is exhausted.
pub proof fn lemma_state_exclusive(w: Walker)
    requires
        w.wf(),
    ensures
        w.exhausted() || w.visit_due() || w.expand_due() || w.awaiting() || w.mid_page(),
        w.exhausted() ==> !w.visit_due() && !w.expand_due() && !w.awaiting() && !w.mid_page(),
        w.visit_due() ==> !w.expand_due() && !w.awaiting() && !w.mid_page(),
        w.expand_due() ==> !w.awaiting() && !w.mid_page(),
        w.awaiting() ==> !w.mid_page(),
{
    lemma_live_len(w.stack@);
    let st = w.stack@;
    if live_len(st) > 0 {
        let t = st[live_len(st) - 1];
        if t is Await {
            assert(live_len(st) - 1 == st.len() - 1);
            assert(w.awaiting());
        }
        if w.awaiting() {
            assert(!finished_frame(st.last()));
            assert(live_len(st) == st.len() as int);
        }
    } else {
        if w.awaiting() {
            assert(!finished_frame(st.last()));
            assert(live_len(st) == st.len() as int);
        }
    }
}

/// Bounded reach: everything ever enrolled was discovered within two
/// follow-hops of the root.
pub proof fn lemma_enrolled_within_depth(w: Walker, id: Seq<char>)
    requires
        w.wf(),
        w.enrolled().contains(id),
    ensures
        w.discovered(id),
        w.first_distance(id) <= 2,
{
    assert(w.attr_done@.contains(id));
    assert(w.follows_done@.contains(id));
    assert(w.first_dist@.contains_key(id));
}

/// The fringe of a finished crawl: an identity first discovered at distance
/// 2 was enrolled for enrichment, yet its follow list was never listed.
pub proof fn lemma_fringe_enrolled_not_expanded(w: Walker, id: Seq<char>)
    requires
        w.wf(),
        w.finished(),
        w.discovered(id),
        w.first_distance(id) >= 2,
    ensures
        w.enrolled().contains(id),
        !w.expansions().contains(id),
{
    lemma_finished_enrollment_complete(w, id);
    if w.expansions().contains(id) {
        lemma_depth_cutoff(w, id);
    }
}

} // verus!
