//! Lazy, paginated walk over the camera's container tree.
//!
//! Photos live in date containers under a container-only spine
//! (`0 → PhotoRoot → grouping → [date containers] → items`). The pager
//! resolves that spine once to get the ordered leaf containers, then serves
//! `[offset, offset+limit)` by browsing only the leaves the page touches,
//! caching items and counts so the next page does not walk again.
//!
//! Browsing is the caller's I/O, so the pager is a state machine: `page`
//! starts serving a window and `resume` hands it the answer to the `Browse`
//! it asked for; each returns the next step: another `Browse`, the finished
//! page, or the failure that ends it.

use vstd::prelude::*;
use crate::browse::{BrowsePage, BrowsePageView, Container, ContainerView, photos_view};
use crate::model::{Photo, PhotoView};
use crate::text::{chars_of, string_of};

verus! {

/// Items requested per Browse call.
pub const PAGE: usize = 50;

/// One page of photos plus paging metadata.
#[derive(Debug)]
pub struct Page {
    pub photos: Vec<Photo>,
    pub total: Option<usize>,
    pub has_more: bool,
}

/// A `Browse` the pager needs: children `[start, start+count)` of a container.
#[derive(Debug)]
pub struct BrowseRequest {
    pub container_id: String,
    pub start: usize,
    pub count: usize,
}

/// What the pager asks for next.
#[derive(Debug)]
pub enum PagerStep {
    /// Browse this, then `resume` with the answer.
    Browse(BrowseRequest),
    /// The page is served.
    Done(Page),
    /// A `Browse` failed; the page is not served.
    Failed(String),
}

struct Leaf {
    id: String,
    /// Known item count (from `childCount`, or learned after browsing).
    count: Option<usize>,
    /// Items cached once the leaf has been loaded.
    items: Vec<Photo>,
    loaded: bool,
}

/// A window being walked: leaf `i` is next, `base` counts the items of the
/// leaves before it (held as `cap(base)`), `out` holds what was taken.
struct Walk {
    offset: usize,
    limit: usize,
    i: usize,
    base: u128,
    out: Vec<Photo>,
}

/// Why the leaf under the walk is being loaded.
enum Phase {
    /// Its item count is unknown.
    Count,
    /// It overlaps the window (it ends at `leaf_end`) and its items are not cached.
    Items { leaf_end: u128 },
    /// The window is served; the leaf's count tells whether photos follow it.
    Tally,
}

/// A leaf being loaded page by page.
struct Load {
    index: usize,
    id: String,
    items: Vec<Photo>,
    subs: Vec<Container>,
    start: usize,
}

enum Task {
    Idle,
    /// Descending the spine from `current`, to serve `[offset, offset+limit)`.
    Resolving { offset: usize, limit: usize, current: String },
    Loading { walk: Walk, phase: Phase, load: Load },
}

pub struct Pager {
    leaves: Vec<Leaf>,
    resolved: bool,
    task: Task,
}

// ---------- the model ----------

#[verifier::ext_equal]
pub struct LeafView {
    pub id: Seq<char>,
    pub count: Option<usize>,
    pub items: Seq<PhotoView>,
    pub loaded: bool,
}

#[verifier::ext_equal]
pub struct WalkView {
    pub offset: usize,
    pub limit: usize,
    pub i: int,
    pub base: int,
    pub out: Seq<PhotoView>,
}

#[verifier::ext_equal]
pub enum PhaseView {
    Count,
    Items { leaf_end: int },
    Tally,
}

#[verifier::ext_equal]
pub struct LoadView {
    pub index: int,
    pub id: Seq<char>,
    pub items: Seq<PhotoView>,
    pub subs: Seq<ContainerView>,
    pub start: usize,
}

#[verifier::ext_equal]
pub enum TaskView {
    Idle,
    Resolving { offset: usize, limit: usize, current: Seq<char> },
    Loading { walk: WalkView, phase: PhaseView, load: LoadView },
}

#[verifier::ext_equal]
pub struct PagerView {
    pub leaves: Seq<LeafView>,
    pub resolved: bool,
    pub task: TaskView,
}

#[verifier::ext_equal]
pub enum StepView {
    Browse { container_id: Seq<char>, start: usize, count: usize },
    Done { photos: Seq<PhotoView>, total: Option<usize>, has_more: bool },
    Failed { message: Seq<char> },
}

impl View for Leaf {
    type V = LeafView;

    closed spec fn view(&self) -> LeafView {
        LeafView { id: self.id@, count: self.count, items: photos_view(self.items@), loaded: self.loaded }
    }
}

spec fn leaves_view(l: Seq<Leaf>) -> Seq<LeafView> {
    l.map_values(|x: Leaf| x@)
}

impl View for Walk {
    type V = WalkView;

    closed spec fn view(&self) -> WalkView {
        WalkView {
            offset: self.offset,
            limit: self.limit,
            i: self.i as int,
            base: self.base as int,
            out: photos_view(self.out@),
        }
    }
}

impl View for Phase {
    type V = PhaseView;

    closed spec fn view(&self) -> PhaseView {
        match self {
            Phase::Count => PhaseView::Count,
            Phase::Items { leaf_end } => PhaseView::Items { leaf_end: *leaf_end as int },
            Phase::Tally => PhaseView::Tally,
        }
    }
}

impl View for Load {
    type V = LoadView;

    closed spec fn view(&self) -> LoadView {
        LoadView {
            index: self.index as int,
            id: self.id@,
            items: photos_view(self.items@),
            subs: crate::browse::containers_view(self.subs@),
            start: self.start,
        }
    }
}

impl View for Task {
    type V = TaskView;

    closed spec fn view(&self) -> TaskView {
        match self {
            Task::Idle => TaskView::Idle,
            Task::Resolving { offset, limit, current } => TaskView::Resolving {
                offset: *offset,
                limit: *limit,
                current: current@,
            },
            Task::Loading { walk, phase, load } => TaskView::Loading {
                walk: walk@,
                phase: phase@,
                load: load@,
            },
        }
    }
}

impl View for Pager {
    type V = PagerView;

    closed spec fn view(&self) -> PagerView {
        PagerView { leaves: leaves_view(self.leaves@), resolved: self.resolved, task: self.task@ }
    }
}

impl View for PagerStep {
    type V = StepView;

    open spec fn view(&self) -> StepView {
        match self {
            PagerStep::Browse(r) => StepView::Browse {
                container_id: r.container_id@,
                start: r.start,
                count: r.count,
            },
            PagerStep::Done(p) => StepView::Done {
                photos: photos_view(p.photos@),
                total: p.total,
                has_more: p.has_more,
            },
            PagerStep::Failed(m) => StepView::Failed { message: m@ },
        }
    }
}

/// Item positions beyond `usize::MAX` are all held as `usize::MAX + 1`:
/// a window never starts there, so they compare with it alike.
pub open spec fn cap(x: int) -> int {
    if x > usize::MAX {
        usize::MAX + 1
    } else {
        x
    }
}

pub open spec fn min(a: int, b: int) -> int {
    if a <= b {
        a
    } else {
        b
    }
}

/// Takes from a loaded leaf the part of its items that falls in the window.
pub open spec fn take_leaf(w: WalkView, items: Seq<PhotoView>, leaf_end: int) -> WalkView {
    let from = if w.offset >= w.base {
        min(w.offset - w.base, items.len() as int)
    } else {
        0
    };
    let to = min(from + (w.limit - w.out.len()), items.len() as int);
    WalkView { i: w.i + 1, base: leaf_end, out: w.out + items.subrange(from, to), ..w }
}

pub enum WalkOutcome {
    /// Leaf `w.i` must be loaded to learn its count.
    NeedCount(WalkView),
    /// Leaf `w.i`, ending at `leaf_end`, overlaps the window and must be loaded.
    NeedItems(WalkView, int),
    /// The walk is over.
    Finished(WalkView),
}

/// The walk once leaf `w.i`'s count `c` is known.
pub open spec fn walk_from_count(leaves: Seq<LeafView>, w: WalkView, c: int) -> WalkOutcome
    decreases leaves.len() - w.i, 0int,
{
    if w.i < 0 || w.i >= leaves.len() {
        WalkOutcome::Finished(w)
    } else {
        let leaf_end = cap(w.base + c);
        if leaf_end <= w.offset {
            walk(leaves, WalkView { i: w.i + 1, base: leaf_end, ..w })
        } else if !leaves[w.i].loaded {
            WalkOutcome::NeedItems(w, leaf_end)
        } else {
            walk(leaves, take_leaf(w, leaves[w.i].items, leaf_end))
        }
    }
}

/// Walks the leaves in order, skipping those wholly before the window and
/// taking from those it overlaps, until the window is full or the leaves end.
pub open spec fn walk(leaves: Seq<LeafView>, w: WalkView) -> WalkOutcome
    decreases leaves.len() - w.i, 1int,
{
    if w.i < 0 || w.i >= leaves.len() || w.out.len() >= w.limit {
        WalkOutcome::Finished(w)
    } else {
        match leaves[w.i].count {
            None => WalkOutcome::NeedCount(w),
            Some(c) => walk_from_count(leaves, w, c as int),
        }
    }
}

/// The sum of the known counts of `leaves[..n]`.
pub open spec fn sum_counts(leaves: Seq<LeafView>, n: int) -> int
    decreases n,
{
    if n <= 0 || n > leaves.len() {
        0
    } else {
        sum_counts(leaves, n - 1) + match leaves[n - 1].count {
            Some(c) => c as int,
            None => 0,
        }
    }
}

pub open spec fn all_counted(leaves: Seq<LeafView>) -> bool {
    forall|k: int| 0 <= k < leaves.len() ==> (#[trigger] leaves[k].count) is Some
}

/// The number of photos, once every leaf's count is known (and fits a usize).
pub open spec fn total_spec(leaves: Seq<LeafView>) -> Option<usize> {
    if all_counted(leaves) && sum_counts(leaves, leaves.len() as int) <= usize::MAX {
        Some(sum_counts(leaves, leaves.len() as int) as usize)
    } else {
        None
    }
}

/// The first leaf at or after `i` whose count is unknown (the number of
/// leaves when there is none).
pub open spec fn first_uncounted_from(leaves: Seq<LeafView>, i: int) -> int
    decreases leaves.len() - i,
{
    if i < 0 || i >= leaves.len() {
        leaves.len() as int
    } else if leaves[i].count is None {
        i
    } else {
        first_uncounted_from(leaves, i + 1)
    }
}

/// Whether photos follow the first `end` ones: with every count known,
/// exactly when there are more than `end`; otherwise (the counted leaves
/// before the first uncounted one already hold more than `end`) yes.
pub open spec fn more_after(leaves: Seq<LeafView>, end: int) -> bool {
    if all_counted(leaves) {
        end < sum_counts(leaves, leaves.len() as int)
    } else {
        true
    }
}

/// A served window must learn the count of the first uncounted leaf before
/// it can tell whether photos follow: the counted leaves before it do not
/// reach past the window.
pub open spec fn must_tally(leaves: Seq<LeafView>, w: WalkView) -> bool {
    let k = first_uncounted_from(leaves, 0);
    &&& w.out.len() >= w.limit
    &&& k < leaves.len()
    &&& sum_counts(leaves, k) <= w.offset + w.out.len()
}

pub open spec fn fresh_load(leaves: Seq<LeafView>, i: int) -> LoadView {
    LoadView { index: i, id: leaves[i].id, items: Seq::empty(), subs: Seq::empty(), start: 0 }
}

/// The state and step after a walk outcome.
pub open spec fn after_walk(leaves: Seq<LeafView>, o: WalkOutcome) -> (PagerView, StepView) {
    match o {
        WalkOutcome::NeedCount(w) => (
            PagerView {
                leaves,
                resolved: true,
                task: TaskView::Loading { walk: w, phase: PhaseView::Count, load: fresh_load(leaves, w.i) },
            },
            StepView::Browse { container_id: leaves[w.i].id, start: 0, count: PAGE },
        ),
        WalkOutcome::NeedItems(w, e) => (
            PagerView {
                leaves,
                resolved: true,
                task: TaskView::Loading {
                    walk: w,
                    phase: PhaseView::Items { leaf_end: e },
                    load: fresh_load(leaves, w.i),
                },
            },
            StepView::Browse { container_id: leaves[w.i].id, start: 0, count: PAGE },
        ),
        WalkOutcome::Finished(w) => if must_tally(leaves, w) {
            let k = first_uncounted_from(leaves, 0);
            (
                PagerView {
                    leaves,
                    resolved: true,
                    task: TaskView::Loading { walk: w, phase: PhaseView::Tally, load: fresh_load(leaves, k) },
                },
                StepView::Browse { container_id: leaves[k].id, start: 0, count: PAGE },
            )
        } else {
            (
                PagerView { leaves, resolved: true, task: TaskView::Idle },
                StepView::Done {
                    photos: w.out,
                    total: total_spec(leaves),
                    has_more: more_after(leaves, w.offset + w.out.len()),
                },
            )
        },
    }
}

pub open spec fn start_walk(offset: usize, limit: usize) -> WalkView {
    WalkView { offset, limit, i: 0, base: 0, out: Seq::empty() }
}

/// What `page(offset, limit)` does.
pub open spec fn page_spec(p: PagerView, offset: usize, limit: usize) -> (PagerView, StepView) {
    if !p.resolved {
        (
            PagerView { task: TaskView::Resolving { offset, limit, current: "0"@ }, ..p },
            StepView::Browse { container_id: "0"@, start: 0, count: PAGE },
        )
    } else {
        after_walk(p.leaves, walk(p.leaves, start_walk(offset, limit)))
    }
}

/// A container as a leaf not yet loaded.
pub open spec fn leaf_of(c: ContainerView) -> LeafView {
    LeafView { id: c.id, count: c.child_count, items: Seq::empty(), loaded: false }
}

/// A resolving `Browse` of `current`: a level with items is the single
/// leaf; a single container is descended into; otherwise the containers are
/// the leaves.
pub open spec fn resolve_spec(p: PagerView, offset: usize, limit: usize, current: Seq<char>, bp: BrowsePageView) -> (
    PagerView,
    StepView,
) {
    if bp.items.len() > 0 {
        let leaves = seq![LeafView { id: current, count: Some(bp.total_matches), items: Seq::empty(), loaded: false }];
        after_walk(leaves, walk(leaves, start_walk(offset, limit)))
    } else if bp.containers.len() == 1 {
        let next = bp.containers[0].id;
        (
            PagerView { task: TaskView::Resolving { offset, limit, current: next }, ..p },
            StepView::Browse { container_id: next, start: 0, count: PAGE },
        )
    } else {
        let leaves = bp.containers.map_values(|c: ContainerView| leaf_of(c));
        after_walk(leaves, walk(leaves, start_walk(offset, limit)))
    }
}

/// `leaves` with leaf `i` replaced by `repl`.
pub open spec fn splice(leaves: Seq<LeafView>, i: int, repl: Seq<LeafView>) -> Seq<LeafView> {
    leaves.take(i) + repl + leaves.skip(i + 1)
}

/// `start + n`, held at `usize::MAX` rather than past it.
pub open spec fn sat_add(start: usize, n: usize) -> usize {
    if start + n > usize::MAX {
        usize::MAX
    } else {
        (start + n) as usize
    }
}

/// One `Browse` answer for the leaf being loaded: more pages are asked for
/// until one returns nothing or the reported total is reached. A leaf that
/// turns out to hold only sub-containers is replaced by them, and the first
/// of them is loaded instead; otherwise its items are cached and the walk
/// goes on.
pub open spec fn load_spec(p: PagerView, w: WalkView, phase: PhaseView, load: LoadView, bp: BrowsePageView) -> (
    PagerView,
    StepView,
) {
    let items = load.items + bp.items;
    let subs = load.subs + bp.containers;
    let start = sat_add(load.start, bp.number_returned);
    if !(bp.number_returned == 0 || start >= bp.total_matches) {
        (
            PagerView {
                task: TaskView::Loading { walk: w, phase, load: LoadView { items, subs, start, ..load } },
                ..p
            },
            StepView::Browse { container_id: load.id, start, count: PAGE },
        )
    } else if items.len() == 0 && subs.len() > 0 {
        let leaves = splice(p.leaves, load.index, subs.map_values(|c: ContainerView| leaf_of(c)));
        (
            PagerView {
                leaves,
                task: TaskView::Loading { walk: w, phase, load: fresh_load(leaves, load.index) },
                ..p
            },
            StepView::Browse { container_id: subs[0].id, start: 0, count: PAGE },
        )
    } else {
        let leaves = p.leaves.update(
            load.index,
            LeafView { id: p.leaves[load.index].id, count: Some(items.len() as usize), items, loaded: true },
        );
        match phase {
            PhaseView::Count => after_walk(leaves, walk_from_count(leaves, w, items.len() as int)),
            PhaseView::Items { leaf_end } => after_walk(
                leaves,
                walk(leaves, take_leaf(w, items, leaf_end)),
            ),
            PhaseView::Tally => after_walk(leaves, WalkOutcome::Finished(w)),
        }
    }
}

/// What `resume` does with the answer to the `Browse` the pager asked for.
pub open spec fn resume_spec(p: PagerView, browsed: Result<BrowsePageView, Seq<char>>) -> (PagerView, StepView) {
    match browsed {
        Err(e) => (PagerView { task: TaskView::Idle, ..p }, StepView::Failed { message: e }),
        Ok(bp) => match p.task {
            TaskView::Resolving { offset, limit, current } => resolve_spec(p, offset, limit, current, bp),
            TaskView::Loading { walk, phase, load } => load_spec(p, walk, phase, load, bp),
            TaskView::Idle => (p, StepView::Failed { message: Seq::empty() }),
        },
    }
}

pub open spec fn browsed_view(b: Result<BrowsePage, String>) -> Result<BrowsePageView, Seq<char>> {
    match b {
        Ok(p) => Ok(p@),
        Err(e) => Err(e@),
    }
}

} // verus!

verus! {

/// What the pager keeps consistent between calls: a leaf being loaded is
/// one of the leaves; unless it is tallied after the window was served, it
/// is the one under the walk, whose window is not yet full.
pub open spec fn wf(p: PagerView) -> bool {
    match p.task {
        TaskView::Loading { walk, phase, load } => {
            &&& 0 <= load.index < p.leaves.len()
            &&& (phase !is Tally ==> walk.i == load.index && walk.out.len() < walk.limit)
            &&& 0 <= walk.base <= usize::MAX + 1
            &&& load.id == p.leaves[load.index].id
            &&& (phase matches PhaseView::Items { leaf_end } ==> 0 <= leaf_end <= usize::MAX + 1)
        },
        _ => true,
    }
}

fn cap_add(base: u128, c: usize) -> (r: u128)
    requires
        base <= usize::MAX + 1,
    ensures
        r == cap(base + c),
{
    let s = base + c as u128;
    if s > usize::MAX as u128 {
        usize::MAX as u128 + 1
    } else {
        s
    }
}

fn take_leaf_exec(w: Walk, items: &Vec<Photo>, leaf_end: u128) -> (r: Walk)
    requires
        w.out@.len() < w.limit,
        w.i < usize::MAX,
    ensures
        r@ == take_leaf(w@, photos_view(items@), leaf_end as int),
{
    let ghost w0 = w@;
    let Walk { offset, limit, i, base, out } = w;
    let mut out = out;
    let n = items.len();
    let from: usize = if (offset as u128) >= base {
        let d = (offset as u128 - base) as usize;
        if d < n {
            d
        } else {
            n
        }
    } else {
        0
    };
    let want = limit - out.len();
    let to: usize = if want >= n - from {
        n
    } else {
        from + want
    };
    let ghost old_out = photos_view(out@);
    let mut k: usize = from;
    while k < to
        invariant
            from <= k <= to <= n,
            n == items@.len(),
            photos_view(out@) == old_out + photos_view(items@).subrange(from as int, k as int),
        decreases to - k,
    {
        let ghost prev = out@;
        let p = items[k].clone();
        assert(p@ == photos_view(items@)[k as int]);
        out.push(p);
        assert(photos_view(out@) =~= photos_view(prev).push(p@));
        assert(photos_view(items@).subrange(from as int, k + 1) =~= photos_view(items@).subrange(
            from as int,
            k as int,
        ).push(p@));
        k = k + 1;
    }
    let r = Walk { offset, limit, i: i + 1, base: leaf_end, out };
    assert(r@ =~= take_leaf(w0, photos_view(items@), leaf_end as int));
    r
}

proof fn lemma_first_uncounted(leaves: Seq<LeafView>, i: int)
    requires
        0 <= i <= leaves.len(),
    ensures
        i <= first_uncounted_from(leaves, i) <= leaves.len(),
        first_uncounted_from(leaves, i) < leaves.len() ==> leaves[first_uncounted_from(leaves, i)].count is None,
        forall|j: int| i <= j < first_uncounted_from(leaves, i) ==> (#[trigger] leaves[j].count) is Some,
        (forall|j: int| 0 <= j < i ==> (#[trigger] leaves[j].count) is Some) ==> (all_counted(leaves)
            <==> first_uncounted_from(leaves, i) == leaves.len()),
    decreases leaves.len() - i,
{
    if i < leaves.len() && leaves[i].count is Some {
        lemma_first_uncounted(leaves, i + 1);
    }
}

proof fn lemma_sum_counts_monotone(leaves: Seq<LeafView>, k: int, n: int)
    requires
        0 <= k <= n <= leaves.len(),
    ensures
        sum_counts(leaves, k) <= sum_counts(leaves, n),
    decreases n - k,
{
    if k < n {
        lemma_sum_counts_monotone(leaves, k, n - 1);
    }
}

impl Default for Pager {
    fn default() -> (r: Pager)
        ensures
            r@ == (PagerView { leaves: Seq::empty(), resolved: false, task: TaskView::Idle }),
            wf(r@),
    {
        Pager::new()
    }
}

impl Pager {
    /// A pager that has resolved nothing yet.
    pub fn new() -> (r: Pager)
        ensures
            r@ == (PagerView { leaves: Seq::empty(), resolved: false, task: TaskView::Idle }),
            wf(r@),
    {
        let r = Pager { leaves: Vec::new(), resolved: false, task: Task::Idle };
        assert(r@.leaves =~= Seq::<LeafView>::empty());
        r
    }

    /// A `Browse` is awaited.
    pub fn is_busy(&self) -> (b: bool)
        ensures
            b == !(self@.task is Idle),
    {
        match self.task {
            Task::Idle => false,
            _ => true,
        }
    }

    fn total_exec(&self) -> (r: Option<usize>)
        ensures
            r == total_spec(self@.leaves),
    {
        let ghost lv = self@.leaves;
        let mut acc: usize = 0;
        let mut i: usize = 0;
        while i < self.leaves.len()
            invariant
                0 <= i <= self.leaves@.len(),
                lv == self@.leaves,
                lv.len() == self.leaves@.len(),
                acc == sum_counts(lv, i as int),
                forall|k: int| 0 <= k < i ==> (#[trigger] lv[k].count) is Some,
            decreases self.leaves.len() - i,
        {
            assert(lv[i as int] == self.leaves@[i as int]@);
            match self.leaves[i].count {
                None => {
                    assert(!all_counted(lv));
                    return None;
                },
                Some(c) => {
                    if c > usize::MAX - acc {
                        proof {
                            lemma_sum_counts_monotone(lv, i + 1, lv.len() as int);
                        }
                        return None;
                    }
                    acc = acc + c;
                },
            }
            i = i + 1;
        }
        Some(acc)
    }

    /// The first uncounted leaf, and the sum of the counts before it.
    fn tally_exec(&self) -> (r: (usize, u128))
        ensures
            r.0 == first_uncounted_from(self@.leaves, 0),
            r.1 == sum_counts(self@.leaves, r.0 as int),
            r.0 <= self@.leaves.len(),
    {
        let ghost lv = self@.leaves;
        let mut acc: u128 = 0;
        let mut i: usize = 0;
        while i < self.leaves.len()
            invariant
                0 <= i <= self.leaves@.len(),
                lv == self@.leaves,
                lv.len() == self.leaves@.len(),
                acc == sum_counts(lv, i as int),
                acc <= i * 18446744073709551615,
                first_uncounted_from(lv, 0) == first_uncounted_from(lv, i as int),
            decreases self.leaves.len() - i,
        {
            assert(lv[i as int] == self.leaves@[i as int]@);
            match self.leaves[i].count {
                None => {
                    return (i, acc);
                },
                Some(c) => {
                    assert(i < usize::MAX);
                    acc = acc + c as u128;
                },
            }
            i = i + 1;
        }
        (i, acc)
    }

    fn finish(&mut self, w: Walk) -> (r: PagerStep)
        requires
            w.base <= usize::MAX + 1,
        ensures
            final(self).leaves@ == old(self).leaves@,
            wf(final(self)@),
            (final(self)@, r@) == after_walk(old(self)@.leaves, WalkOutcome::Finished(w@)),
    {
        let ghost lv = self@.leaves;
        let (k, acc) = self.tally_exec();
        proof {
            lemma_first_uncounted(lv, 0);
        }
        self.resolved = true;
        if k < self.leaves.len() && w.out.len() >= w.limit && acc <= (w.offset as u128) + (w.out.len() as u128) {
            let id = self.leaves[k].id.clone();
            let req_id = id.clone();
            let load = Load { index: k, id, items: Vec::new(), subs: Vec::new(), start: 0 };
            self.task = Task::Loading { walk: w, phase: Phase::Tally, load };
            proof {
                assert(self@.leaves[k as int] == self.leaves@[k as int]@);
                assert(photos_view(Seq::<Photo>::empty()) =~= Seq::<PhotoView>::empty());
                assert(crate::browse::containers_view(Seq::<Container>::empty()) =~= Seq::<ContainerView>::empty());
            }
            return PagerStep::Browse(BrowseRequest { container_id: req_id, start: 0, count: PAGE });
        }
        let all = k == self.leaves.len();
        let total: Option<usize> = if all && acc <= usize::MAX as u128 {
            Some(acc as usize)
        } else {
            None
        };
        let has_more = if all {
            (w.offset as u128) + (w.out.len() as u128) < acc
        } else {
            true
        };
        self.task = Task::Idle;
        PagerStep::Done(Page { photos: w.out, total, has_more })
    }

    fn start_load(&mut self, w: Walk, phase: Phase) -> (r: PagerStep)
        requires
            w.i < old(self).leaves@.len(),
            w.out@.len() < w.limit,
            w.base <= usize::MAX + 1,
            phase matches Phase::Items { leaf_end } ==> leaf_end <= usize::MAX + 1,
            !(phase is Tally),
        ensures
            final(self).leaves@ == old(self).leaves@,
            wf(final(self)@),
            (final(self)@, r@) == after_walk(
                old(self)@.leaves,
                match phase {
                    Phase::Count => WalkOutcome::NeedCount(w@),
                    Phase::Items { leaf_end } => WalkOutcome::NeedItems(w@, leaf_end as int),
                    Phase::Tally => WalkOutcome::Finished(w@),
                },
            ),
    {
        let i = w.i;
        let id = self.leaves[i].id.clone();
        let req_id = id.clone();
        let load = Load { index: i, id, items: Vec::new(), subs: Vec::new(), start: 0 };
        self.task = Task::Loading { walk: w, phase, load };
        self.resolved = true;
        proof {
            assert(self@.leaves[i as int] == self.leaves@[i as int]@);
            assert(photos_view(Seq::<Photo>::empty()) =~= Seq::<PhotoView>::empty());
            assert(crate::browse::containers_view(Seq::<Container>::empty()) =~= Seq::<ContainerView>::empty());
        }
        PagerStep::Browse(BrowseRequest { container_id: req_id, start: 0, count: PAGE })
    }

    /// Walks from `w` until the window is served or a leaf must be loaded.
    fn run_walk(&mut self, from: Walk) -> (r: PagerStep)
        requires
            from.i <= old(self).leaves@.len(),
            from.base <= usize::MAX + 1,
        ensures
            wf(final(self)@),
            (final(self)@, r@) == after_walk(old(self)@.leaves, walk(old(self)@.leaves, from@)),
    {
        let ghost lv = self@.leaves;
        let ghost w0 = from@;
        let mut w = from;
        loop
            invariant
                lv == self@.leaves,
                lv == old(self)@.leaves,
                lv.len() == self.leaves@.len(),
                w.i <= self.leaves@.len(),
                w.base <= usize::MAX + 1,
                walk(lv, w@) == walk(lv, w0),
                w0 == from@,
            decreases self.leaves@.len() - w.i,
        {
            if w.i >= self.leaves.len() || w.out.len() >= w.limit {
                assert(photos_view(w.out@).len() == w.out@.len());
                assert(walk(lv, w@) == WalkOutcome::Finished(w@));
                assert(after_walk(lv, walk(lv, w0)) == after_walk(lv, WalkOutcome::Finished(w@)));
                return self.finish(w);
            }
            assert(lv[w.i as int] == self.leaves@[w.i as int]@);
            let c = match self.leaves[w.i].count {
                None => return self.start_load(w, Phase::Count),
                Some(c) => c,
            };
            let leaf_end = cap_add(w.base, c);
            if leaf_end <= w.offset as u128 {
                w.i = w.i + 1;
                w.base = leaf_end;
            } else if !self.leaves[w.i].loaded {
                return self.start_load(w, Phase::Items { leaf_end });
            } else {
                let i = w.i;
                w = take_leaf_exec(w, &self.leaves[i].items, leaf_end);
            }
        }
    }

    /// Continues the walk once the count `c` of leaf `w.i` is known.
    fn walk_after_count(&mut self, w: Walk, c: usize) -> (r: PagerStep)
        requires
            w.i < old(self).leaves@.len(),
            w.base <= usize::MAX + 1,
            w.out@.len() < w.limit,
        ensures
            wf(final(self)@),
            (final(self)@, r@) == after_walk(
                old(self)@.leaves,
                walk_from_count(old(self)@.leaves, w@, c as int),
            ),
    {
        let ghost lv = self@.leaves;
        let _n = self.leaves.len();
        assert(lv[w.i as int] == self.leaves@[w.i as int]@);
        let leaf_end = cap_add(w.base, c);
        if leaf_end <= w.offset as u128 {
            let mut w = w;
            w.i = w.i + 1;
            w.base = leaf_end;
            self.run_walk(w)
        } else if !self.leaves[w.i].loaded {
            self.start_load(w, Phase::Items { leaf_end })
        } else {
            let i = w.i;
            let w = take_leaf_exec(w, &self.leaves[i].items, leaf_end);
            self.run_walk(w)
        }
    }

    /// The containers as leaves not yet loaded, appended to `self.leaves`.
    fn push_leaves(&mut self, containers: &Vec<Container>)
        ensures
            final(self).resolved == old(self).resolved,
            final(self).task == old(self).task,
            final(self)@.leaves == old(self)@.leaves + crate::browse::containers_view(containers@).map_values(
                |c: ContainerView| leaf_of(c),
            ),
    {
        let ghost start = self@.leaves;
        let ghost cv = crate::browse::containers_view(containers@).map_values(|c: ContainerView| leaf_of(c));
        let mut k: usize = 0;
        while k < containers.len()
            invariant
                0 <= k <= containers@.len(),
                cv == crate::browse::containers_view(containers@).map_values(|c: ContainerView| leaf_of(c)),
                self.resolved == old(self).resolved,
                self.task == old(self).task,
                self@.leaves == start + cv.take(k as int),
            decreases containers.len() - k,
        {
            let c = &containers[k];
            let leaf = Leaf { id: c.id.clone(), count: c.child_count, items: Vec::new(), loaded: false };
            let ghost prev = self.leaves@;
            self.leaves.push(leaf);
            proof {
                assert(photos_view(Seq::<Photo>::empty()) =~= Seq::<PhotoView>::empty());
                assert(leaf@ == cv[k as int]);
                assert(leaves_view(self.leaves@) =~= leaves_view(prev).push(leaf@));
                assert(cv.take(k + 1) =~= cv.take(k as int).push(cv[k as int]));
            }
            k = k + 1;
        }
        assert(cv.take(containers@.len() as int) =~= cv);
    }

    /// Handles the answer to a resolving `Browse` of `current`.
    fn resolve(&mut self, offset: usize, limit: usize, current: String, bp: BrowsePage) -> (r: PagerStep)
        ensures
            wf(final(self)@),
            (final(self)@, r@) == resolve_spec(old(self)@, offset, limit, current@, bp@),
    {
        if bp.items.len() > 0 {
            self.leaves = Vec::new();
            let ghost cur = current@;
            self.leaves.push(Leaf { id: current, count: Some(bp.total_matches), items: Vec::new(), loaded: false });
            proof {
                assert(photos_view(Seq::<Photo>::empty()) =~= Seq::<PhotoView>::empty());
                assert(self@.leaves =~= seq![LeafView { id: cur, count: Some(bp.total_matches), items: Seq::empty(), loaded: false }]);
            }
            let w = Walk { offset, limit, i: 0, base: 0, out: Vec::new() };
            assert(w@ =~= start_walk(offset, limit));
            return self.run_walk(w);
        }
        if bp.containers.len() == 1 {
            let next = bp.containers[0].id.clone();
            let req = BrowseRequest { container_id: next.clone(), start: 0, count: PAGE };
            self.task = Task::Resolving { offset, limit, current: next };
            return PagerStep::Browse(req);
        }
        self.leaves = Vec::new();
        proof {
            assert(self@.leaves =~= Seq::<LeafView>::empty());
        }
        self.push_leaves(&bp.containers);
        proof {
            assert(self@.leaves =~= crate::browse::containers_view(bp.containers@).map_values(
                |c: ContainerView| leaf_of(c),
            ));
        }
        let w = Walk { offset, limit, i: 0, base: 0, out: Vec::new() };
        assert(w@ =~= start_walk(offset, limit));
        self.run_walk(w)
    }

    /// Handles one answer for the leaf being loaded.
    fn load_leaf(&mut self, w: Walk, phase: Phase, load: Load, bp: BrowsePage) -> (r: PagerStep)
        requires
            wf(
                PagerView {
                    task: TaskView::Loading { walk: w@, phase: phase@, load: load@ },
                    ..old(self)@
                },
            ),
        ensures
            wf(final(self)@),
            (final(self)@, r@) == load_spec(old(self)@, w@, phase@, load@, bp@),
    {
        let ghost lv = self@.leaves;
        let ghost bpv = bp@;
        let ghost loadv = load@;
        let BrowsePage { items: new_items, containers, number_returned, total_matches } = bp;
        let Load { index, id, items, subs, start } = load;
        let mut items = items;
        let mut subs = subs;
        let mut new_items = new_items;
        let mut containers = containers;
        let ghost items0 = photos_view(items@);
        let ghost subs0 = crate::browse::containers_view(subs@);
        items.append(&mut new_items);
        subs.append(&mut containers);
        proof {
            assert(photos_view(items@) =~= loadv.items + bpv.items);
            assert(crate::browse::containers_view(subs@) =~= loadv.subs + bpv.containers);
        }
        let start: usize = if number_returned > usize::MAX - start {
            usize::MAX
        } else {
            start + number_returned
        };
        if !(number_returned == 0 || start >= total_matches) {
            let req = BrowseRequest { container_id: id.clone(), start, count: PAGE };
            self.task = Task::Loading { walk: w, phase, load: Load { index, id, items, subs, start } };
            return PagerStep::Browse(req);
        }
        if items.len() == 0 && subs.len() > 0 {
            let first = subs[0].id.clone();
            let mut tail = self.leaves.split_off(index);
            let _dropped = tail.remove(0);
            self.push_leaves(&subs);
            let ghost mid = self@.leaves;
            let mut tail = tail;
            self.leaves.append(&mut tail);
            proof {
                let cv = crate::browse::containers_view(subs@);
                assert(leaves_view(self.leaves@) =~= mid + lv.skip(index + 1));
                assert(lv.take(index as int) =~= leaves_view(self.leaves@).take(index as int));
                assert(self@.leaves =~= splice(lv, index as int, cv.map_values(|c: ContainerView| leaf_of(c))));
                assert(self@.leaves[index as int] == leaf_of(cv[0]));
            }
            let new_id = self.leaves[index].id.clone();
            self.task = Task::Loading {
                walk: w,
                phase,
                load: Load { index, id: new_id, items: Vec::new(), subs: Vec::new(), start: 0 },
            };
            proof {
                assert(photos_view(Seq::<Photo>::empty()) =~= Seq::<PhotoView>::empty());
                assert(crate::browse::containers_view(Seq::<Container>::empty()) =~= Seq::<ContainerView>::empty());
                assert(self@.leaves[index as int] == self.leaves@[index as int]@);
            }
            return PagerStep::Browse(BrowseRequest { container_id: first, start: 0, count: PAGE });
        }
        let n = items.len();
        let leaf_id = self.leaves[index].id.clone();
        proof {
            assert(self@.leaves[index as int] == self.leaves@[index as int]@);
        }
        let ghost iv = photos_view(items@);
        self.leaves.set(index, Leaf { id: leaf_id, count: Some(n), items, loaded: true });
        proof {
            assert(self@.leaves =~= lv.update(
                index as int,
                LeafView { id: lv[index as int].id, count: Some(n), items: iv, loaded: true },
            ));
        }
        match phase {
            Phase::Count => self.walk_after_count(w, n),
            Phase::Items { leaf_end } => {
                let nl = self.leaves.len();
                assert(w.i < nl);
                let w2 = take_leaf_exec(w, &self.leaves[index].items, leaf_end);
                self.run_walk(w2)
            },
            Phase::Tally => self.finish(w),
        }
    }

    /// Hands the pager the answer to the `Browse` it asked for, and goes on.
    pub fn resume(&mut self, browsed: Result<BrowsePage, String>) -> (r: PagerStep)
        requires
            wf(old(self)@),
            !(old(self)@.task is Idle),
        ensures
            wf(final(self)@),
            (final(self)@, r@) == resume_spec(old(self)@, browsed_view(browsed)),
    {
        let mut task = Task::Idle;
        core::mem::swap(&mut task, &mut self.task);
        match browsed {
            Err(e) => PagerStep::Failed(e),
            Ok(bp) => match task {
                Task::Resolving { offset, limit, current } => self.resolve(offset, limit, current, bp),
                Task::Loading { walk, phase, load } => self.load_leaf(walk, phase, load, bp),
                Task::Idle => PagerStep::Failed(String::new()),
            },
        }
    }

    /// Starts serving photos `[offset, offset+limit)`; any step in flight is
    /// abandoned.
    pub fn page(&mut self, offset: usize, limit: usize) -> (r: PagerStep)
        ensures
            wf(final(self)@),
            (final(self)@, r@) == page_spec(old(self)@, offset, limit),
    {
        if !self.resolved {
            let current = string_of(&chars_of("0"));
            let req = BrowseRequest { container_id: current.clone(), start: 0, count: PAGE };
            self.task = Task::Resolving { offset, limit, current };
            return PagerStep::Browse(req);
        }
        let w = Walk { offset, limit, i: 0, base: 0, out: Vec::new() };
        assert(w@ =~= start_walk(offset, limit));
        self.run_walk(w)
    }
}

} // verus!

verus! {

/// Every leaf is loaded and counted by its cached items.
pub open spec fn settled(leaves: Seq<LeafView>) -> bool {
    forall|k: int|
        0 <= k < leaves.len() ==> (#[trigger] leaves[k]).loaded && leaves[k].items.len()
            <= usize::MAX && leaves[k].count == Some(leaves[k].items.len() as usize)
}

/// The cached items of `leaves[..n]`, in order.
pub open spec fn flatten(leaves: Seq<LeafView>, n: int) -> Seq<PhotoView>
    decreases n,
{
    if n <= 0 || n > leaves.len() {
        Seq::empty()
    } else {
        flatten(leaves, n - 1) + leaves[n - 1].items
    }
}

/// The photos `[offset, offset+limit)` of `all`, as far as there are any.
pub open spec fn window(all: Seq<PhotoView>, offset: int, limit: int) -> Seq<PhotoView> {
    all.subrange(min(offset, all.len() as int), min(offset + limit, all.len() as int))
}

proof fn lemma_flatten_len(leaves: Seq<LeafView>, n: int)
    requires
        settled(leaves),
        0 <= n <= leaves.len(),
    ensures
        flatten(leaves, n).len() == sum_counts(leaves, n),
    decreases n,
{
    if n > 0 {
        lemma_flatten_len(leaves, n - 1);
        assert(leaves[n - 1].count == Some(leaves[n - 1].items.len() as usize));
    }
}

proof fn lemma_walk_settled(leaves: Seq<LeafView>, w: WalkView)
    requires
        settled(leaves),
        sum_counts(leaves, leaves.len() as int) <= usize::MAX,
        0 <= w.i <= leaves.len(),
        w.base == sum_counts(leaves, w.i),
        w.out == window(flatten(leaves, w.i), w.offset as int, w.limit as int),
    ensures
        walk(leaves, w) matches WalkOutcome::Finished(f) && f.offset == w.offset && f.limit
            == w.limit && f.out == window(
            flatten(leaves, leaves.len() as int),
            w.offset as int,
            w.limit as int,
        ),
    decreases leaves.len() - w.i,
{
    let n = leaves.len() as int;
    let off = w.offset as int;
    let lim = w.limit as int;
    let i = w.i;
    lemma_flatten_len(leaves, i);
    lemma_flatten_len(leaves, n);
    lemma_sum_counts_monotone(leaves, i, n);
    let fi = flatten(leaves, i);
    let fall = flatten(leaves, n);
    // flatten(leaves, i) is a prefix of flatten(leaves, n)
    lemma_flatten_prefix(leaves, i, n);
    if i >= n || w.out.len() >= w.limit {
        if i < n {
            // the window is already full inside the first i leaves
            if lim > 0 {
                assert(fi.len() >= off + lim);
                assert(window(fall, off, lim) =~= window(fi, off, lim));
            } else {
                assert(window(fall, off, lim) =~= window(fi, off, lim));
            }
        } else {
            assert(fi =~= fall);
        }
    } else {
        let leaf = leaves[i];
        let c = leaf.items.len() as int;
        assert(leaf.count == Some(c as usize));
        lemma_sum_counts_monotone(leaves, i + 1, n);
        let s1 = sum_counts(leaves, i + 1);
        assert(s1 == w.base + c);
        let f1 = flatten(leaves, i + 1);
        assert(f1 == fi + leaf.items);
        if s1 <= off {
            let w2 = WalkView { i: i + 1, base: s1, ..w };
            assert(window(fi, off, lim) =~= Seq::<PhotoView>::empty());
            assert(window(f1, off, lim) =~= Seq::<PhotoView>::empty());
            lemma_walk_settled(leaves, w2);
        } else {
            let w2 = take_leaf(w, leaf.items, s1);
            let from = if off >= w.base {
                min(off - w.base, c)
            } else {
                0
            };
            let to = min(from + (lim - w.out.len()), c);
            if off >= w.base {
                assert(w.out =~= Seq::<PhotoView>::empty());
                assert(from == off - w.base);
                assert(window(f1, off, lim) =~= leaf.items.subrange(from, to));
            } else {
                assert(min(off + lim, fi.len() as int) == fi.len());
                assert(window(f1, off, lim) =~= w.out + leaf.items.subrange(from, to));
            }
            assert(w2.out =~= window(f1, off, lim));
            lemma_walk_settled(leaves, w2);
        }
    }
}

proof fn lemma_flatten_prefix(leaves: Seq<LeafView>, i: int, n: int)
    requires
        0 <= i <= n <= leaves.len(),
    ensures
        flatten(leaves, i).len() <= flatten(leaves, n).len(),
        flatten(leaves, i) == flatten(leaves, n).take(flatten(leaves, i).len() as int),
    decreases n - i,
{
    if i < n {
        lemma_flatten_prefix(leaves, i, n - 1);
        let a = flatten(leaves, i);
        let b = flatten(leaves, n - 1);
        assert((b + leaves[n - 1].items).take(a.len() as int) =~= b.take(a.len() as int));
    } else {
        assert(flatten(leaves, n).take(flatten(leaves, n).len() as int) =~= flatten(leaves, n));
    }
}

/// Once every leaf's items are cached (and fit a usize), `page(offset,
/// limit)` needs no `Browse`: it serves at once the photos
/// `[offset, offset+limit)` of all the photos in order, reports the total,
/// says whether photos follow the window, and keeps the leaves as they were.
pub proof fn law_settled_page_is_window(p: PagerView, offset: usize, limit: usize)
    requires
        p.resolved,
        settled(p.leaves),
        sum_counts(p.leaves, p.leaves.len() as int) <= usize::MAX,
    ensures
        ({
            let all = flatten(p.leaves, p.leaves.len() as int);
            let (q, step) = page_spec(p, offset, limit);
            &&& q.leaves == p.leaves
            &&& q.task is Idle
            &&& step == StepView::Done {
                photos: window(all, offset as int, limit as int),
                total: Some(all.len() as usize),
                has_more: offset + limit < all.len(),
            }
        }),
{
    let leaves = p.leaves;
    let n = leaves.len() as int;
    let all = flatten(leaves, n);
    let w = start_walk(offset, limit);
    assert(window(flatten(leaves, 0), offset as int, limit as int) =~= Seq::<PhotoView>::empty());
    lemma_walk_settled(leaves, w);
    lemma_flatten_len(leaves, n);
    assert(all_counted(leaves)) by {
        assert forall|k: int| 0 <= k < leaves.len() implies (#[trigger] leaves[k].count) is Some by {
            assert(leaves[k].count == Some(leaves[k].items.len() as usize));
        }
    }
    lemma_first_uncounted(leaves, 0);
}

/// Pages of a settled pager tile: serving `[o, o+a)` and then `[o+a, o+a+b)`
/// gives, without overlap or gap, the photos of `[o, o+a+b)`.
pub proof fn law_consecutive_pages_tile(p: PagerView, o: usize, a: usize, b: usize)
    requires
        p.resolved,
        settled(p.leaves),
        sum_counts(p.leaves, p.leaves.len() as int) <= usize::MAX,
        o + a <= usize::MAX,
        o + a + b <= usize::MAX,
    ensures
        ({
            let (q1, s1) = page_spec(p, o, a);
            let (q2, s2) = page_spec(q1, (o + a) as usize, b);
            let (_, s3) = page_spec(p, o, (a + b) as usize);
            s1 matches StepView::Done { photos: first, .. } && s2 matches StepView::Done {
                photos: second,
                ..
            } && s3 matches StepView::Done { photos: both, .. } && first + second == both
        }),
{
    law_settled_page_is_window(p, o, a);
    let (q1, s1) = page_spec(p, o, a);
    law_settled_page_is_window(q1, (o + a) as usize, b);
    law_settled_page_is_window(p, o, (a + b) as usize);
    let all = flatten(p.leaves, p.leaves.len() as int);
    assert(window(all, o as int, a as int) + window(all, o + a, b as int) =~= window(
        all,
        o as int,
        a + b,
    ));
}

} // verus!

verus! {

/// The photos of the camera's leaves `parts[..n]`, in order.
pub open spec fn concat_parts(parts: Seq<Seq<PhotoView>>, n: int) -> Seq<PhotoView>
    decreases n,
{
    if n <= 0 || n > parts.len() {
        Seq::empty()
    } else {
        concat_parts(parts, n - 1) + parts[n - 1]
    }
}

/// The pager's leaves agree with a camera whose leaf containers hold the
/// photos `parts`, in order: a count the pager knows (reported by the camera
/// or learned by loading) is the leaf's number of photos, and the items it
/// cached are the leaf's photos.
pub open spec fn agrees(leaves: Seq<LeafView>, parts: Seq<Seq<PhotoView>>) -> bool {
    &&& leaves.len() == parts.len()
    &&& forall|k: int|
        0 <= k < leaves.len() ==> (#[trigger] leaves[k].count matches Some(c) ==> c == parts[k].len()) && (
        leaves[k].loaded ==> leaves[k].items == parts[k] && leaves[k].count is Some)
}

/// A walk that agrees with the camera: the leaves before it are counted,
/// its base is their number of photos, and it holds the window's share of
/// their photos.
pub open spec fn walk_agrees(leaves: Seq<LeafView>, parts: Seq<Seq<PhotoView>>, w: WalkView) -> bool {
    &&& 0 <= w.i <= leaves.len()
    &&& forall|k: int| 0 <= k < w.i ==> (#[trigger] leaves[k].count) is Some
    &&& w.base == concat_parts(parts, w.i).len()
    &&& w.out == window(concat_parts(parts, w.i), w.offset as int, w.limit as int)
}

proof fn lemma_concat_prefix(parts: Seq<Seq<PhotoView>>, i: int, n: int)
    requires
        0 <= i <= n <= parts.len(),
    ensures
        concat_parts(parts, i).len() <= concat_parts(parts, n).len(),
        concat_parts(parts, i) == concat_parts(parts, n).take(concat_parts(parts, i).len() as int),
    decreases n - i,
{
    if i < n {
        lemma_concat_prefix(parts, i, n - 1);
        let a = concat_parts(parts, i);
        let b = concat_parts(parts, n - 1);
        assert((b + parts[n - 1]).take(a.len() as int) =~= b.take(a.len() as int));
    } else {
        assert(concat_parts(parts, n).take(concat_parts(parts, n).len() as int) =~= concat_parts(parts, n));
    }
}

proof fn lemma_sum_counts_agree(leaves: Seq<LeafView>, parts: Seq<Seq<PhotoView>>, n: int)
    requires
        agrees(leaves, parts),
        0 <= n <= leaves.len(),
        forall|k: int| 0 <= k < n ==> (#[trigger] leaves[k].count) is Some,
    ensures
        sum_counts(leaves, n) == concat_parts(parts, n).len(),
    decreases n,
{
    if n > 0 {
        lemma_sum_counts_agree(leaves, parts, n - 1);
        assert(leaves[n - 1].count is Some);
    }
}

/// Taking a loaded leaf's share of the window keeps the walk agreeing.
proof fn lemma_take_agrees(leaves: Seq<LeafView>, parts: Seq<Seq<PhotoView>>, w: WalkView)
    requires
        agrees(leaves, parts),
        walk_agrees(leaves, parts, w),
        w.i < leaves.len(),
        leaves[w.i].count is Some,
        w.out.len() < w.limit,
        w.base + parts[w.i].len() > w.offset,
    ensures
        walk_agrees(leaves, parts, take_leaf(w, parts[w.i], w.base + parts[w.i].len())),
{
    let i = w.i;
    let off = w.offset as int;
    let lim = w.limit as int;
    let fi = concat_parts(parts, i);
    let f1 = concat_parts(parts, i + 1);
    let items = parts[i];
    let c = items.len() as int;
    let w2 = take_leaf(w, items, w.base + c);
    assert(f1 == fi + items);
    let from = if off >= w.base {
        min(off - w.base, c)
    } else {
        0
    };
    let to = min(from + (lim - w.out.len()), c);
    if off >= w.base {
        assert(w.out =~= Seq::<PhotoView>::empty());
        assert(window(f1, off, lim) =~= items.subrange(from, to));
    } else {
        assert(min(off + lim, fi.len() as int) == fi.len());
        assert(window(f1, off, lim) =~= w.out + items.subrange(from, to));
    }
    assert(w2.out =~= window(f1, off, lim));
    assert forall|k: int| 0 <= k < i + 1 implies (#[trigger] leaves[k].count) is Some by {
        if k < i {
            assert(leaves[k].count is Some);
        }
    }
}

/// The walk over leaves that agree with the camera: it ends agreeing, with
/// the window full or every leaf passed, or stops at a leaf it must load.
proof fn lemma_walk_agrees(leaves: Seq<LeafView>, parts: Seq<Seq<PhotoView>>, w: WalkView)
    requires
        agrees(leaves, parts),
        walk_agrees(leaves, parts, w),
        concat_parts(parts, parts.len() as int).len() <= usize::MAX,
    ensures
        match walk(leaves, w) {
            WalkOutcome::Finished(f) => walk_agrees(leaves, parts, f) && f.offset == w.offset && f.limit
                == w.limit && (f.i == leaves.len() || f.out.len() >= f.limit),
            WalkOutcome::NeedCount(f) => walk_agrees(leaves, parts, f) && f.offset == w.offset && f.limit
                == w.limit && f.i < leaves.len() && leaves[f.i].count is None && f.out.len() < f.limit,
            WalkOutcome::NeedItems(f, e) => walk_agrees(leaves, parts, f) && f.offset == w.offset && f.limit
                == w.limit && f.i < leaves.len() && leaves[f.i].count is Some && !leaves[f.i].loaded
                && f.out.len() < f.limit && e == f.base + parts[f.i].len() && e > f.offset,
        },
    decreases leaves.len() - w.i,
{
    let n = leaves.len() as int;
    let i = w.i;
    if i >= n || w.out.len() >= w.limit {
    } else if leaves[i].count is None {
    } else {
        let c = parts[i].len() as int;
        assert(leaves[i].count == Some(c as usize));
        lemma_concat_prefix(parts, i + 1, n);
        let s1 = w.base + c;
        assert(concat_parts(parts, i + 1) == concat_parts(parts, i) + parts[i]);
        assert(concat_parts(parts, i + 1).len() == s1);
        assert(cap(s1) == s1);
        assert(walk(leaves, w) == walk_from_count(leaves, w, c));
        if s1 <= w.offset {
            let w2 = WalkView { i: i + 1, base: s1, ..w };
            assert(window(concat_parts(parts, i), w.offset as int, w.limit as int) =~= Seq::<PhotoView>::empty());
            assert(window(concat_parts(parts, i + 1), w.offset as int, w.limit as int) =~= Seq::<PhotoView>::empty());
            assert forall|k: int| 0 <= k < i + 1 implies (#[trigger] leaves[k].count) is Some by {
                if k < i {
                    assert(leaves[k].count is Some);
                }
            }
            lemma_walk_agrees(leaves, parts, w2);
        } else if !leaves[i].loaded {
        } else {
            assert(leaves[i].items == parts[i]);
            lemma_take_agrees(leaves, parts, w);
            lemma_walk_agrees(leaves, parts, take_leaf(w, parts[i], s1));
        }
    }
}

/// A finished walk over agreeing leaves that need no tally is served as the
/// window of the camera's photos, says exactly whether photos follow, and
/// reports the total or none.
proof fn lemma_done_agrees(leaves: Seq<LeafView>, parts: Seq<Seq<PhotoView>>, f: WalkView)
    requires
        agrees(leaves, parts),
        walk_agrees(leaves, parts, f),
        f.i == leaves.len() || f.out.len() >= f.limit,
        concat_parts(parts, parts.len() as int).len() <= usize::MAX,
        !must_tally(leaves, f),
    ensures
        ({
            let all = concat_parts(parts, parts.len() as int);
            &&& f.out == window(all, f.offset as int, f.limit as int)
            &&& more_after(leaves, f.offset + f.out.len()) == (f.offset + f.out.len() < all.len())
            &&& (total_spec(leaves) is None || total_spec(leaves) == Some(all.len() as usize))
        }),
{
    let n = leaves.len() as int;
    let all = concat_parts(parts, n);
    let fi = concat_parts(parts, f.i);
    let off = f.offset as int;
    let lim = f.limit as int;
    lemma_concat_prefix(parts, f.i, n);
    if f.i < n {
        if lim > 0 {
            assert(fi.len() >= off + lim);
        }
        assert(window(all, off, lim) =~= window(fi, off, lim));
    } else {
        assert(fi =~= all);
    }
    lemma_first_uncounted(leaves, 0);
    let k = first_uncounted_from(leaves, 0);
    if all_counted(leaves) {
        lemma_sum_counts_agree(leaves, parts, n);
    } else {
        assert(k < n);
        if f.i == n {
            assert(leaves[k].count is Some);
        }
        assert(f.i <= k) by {
            if k < f.i {
                assert(leaves[k].count is Some);
            }
        }
        lemma_sum_counts_agree(leaves, parts, k);
        lemma_concat_prefix(parts, k, n);
    }
}

/// A load in flight that agrees with the camera: its walk agrees; a leaf
/// loaded for its items overlaps the window and ends where its photos end;
/// a tally comes after a served window; the leaf is not cached yet.
pub open spec fn loading_agrees(q: PagerView, parts: Seq<Seq<PhotoView>>, offset: usize, limit: usize) -> bool {
    q.task matches TaskView::Loading { walk, phase, load } && {
        &&& walk_agrees(q.leaves, parts, walk)
        &&& !q.leaves[load.index].loaded
        &&& walk.offset == offset
        &&& walk.limit == limit
        &&& match phase {
            PhaseView::Count => true,
            PhaseView::Items { leaf_end } => leaf_end == walk.base + parts[load.index].len() && leaf_end
                > walk.offset && q.leaves[load.index].count is Some,
            PhaseView::Tally => walk.out.len() >= walk.limit && walk.i <= load.index,
        }
    }
}

/// A step of a pager whose leaves agree with a camera whose leaf containers
/// hold the photos `parts`, serving `[offset, offset+limit)`: a served page
/// is that window of the camera's photos, says exactly whether photos
/// follow it, and reports the total or none; otherwise it starts loading a
/// leaf, in agreement.
pub open spec fn step_agrees(parts: Seq<Seq<PhotoView>>, offset: usize, limit: usize, q: PagerView, step: StepView) -> bool {
    let all = concat_parts(parts, parts.len() as int);
    &&& agrees(q.leaves, parts)
    &&& wf(q)
    &&& q.resolved
    &&& match step {
        StepView::Done { photos, total, has_more } => {
            &&& q.task is Idle
            &&& photos == window(all, offset as int, limit as int)
            &&& has_more == (offset + photos.len() < all.len())
            &&& (total is None || total == Some(all.len() as usize))
        },
        StepView::Browse { container_id, start, count } => {
            &&& loading_agrees(q, parts, offset, limit)
            &&& q.task matches TaskView::Loading { load, .. } && load == fresh_load(q.leaves, load.index)
                && container_id == q.leaves[load.index].id && start == 0 && count == PAGE
        },
        StepView::Failed { .. } => false,
    }
}

proof fn lemma_finished_agrees(leaves: Seq<LeafView>, parts: Seq<Seq<PhotoView>>, f: WalkView)
    requires
        agrees(leaves, parts),
        walk_agrees(leaves, parts, f),
        f.i == leaves.len() || f.out.len() >= f.limit,
        concat_parts(parts, parts.len() as int).len() <= usize::MAX,
    ensures
        ({
            let (q, step) = after_walk(leaves, WalkOutcome::Finished(f));
            step_agrees(parts, f.offset, f.limit, q, step)
        }),
{
    lemma_first_uncounted(leaves, 0);
    lemma_concat_prefix(parts, f.i, parts.len() as int);
    if !must_tally(leaves, f) {
        lemma_done_agrees(leaves, parts, f);
    } else {
        let k = first_uncounted_from(leaves, 0);
        assert(f.i <= k) by {
            if k < f.i {
                assert(leaves[k].count is Some);
            }
        }
    }
}

proof fn lemma_after_walk_agrees(leaves: Seq<LeafView>, parts: Seq<Seq<PhotoView>>, w: WalkView)
    requires
        agrees(leaves, parts),
        walk_agrees(leaves, parts, w),
        concat_parts(parts, parts.len() as int).len() <= usize::MAX,
    ensures
        ({
            let (q, step) = after_walk(leaves, walk(leaves, w));
            step_agrees(parts, w.offset, w.limit, q, step)
        }),
{
    lemma_walk_agrees(leaves, parts, w);
    lemma_concat_prefix(parts, 0, parts.len() as int);
    match walk(leaves, w) {
        WalkOutcome::Finished(f) => {
            lemma_finished_agrees(leaves, parts, f);
        },
        WalkOutcome::NeedCount(f) => {
            lemma_concat_prefix(parts, f.i, parts.len() as int);
        },
        WalkOutcome::NeedItems(f, e) => {
            lemma_concat_prefix(parts, f.i + 1, parts.len() as int);
            assert(concat_parts(parts, f.i + 1) == concat_parts(parts, f.i) + parts[f.i]);
        },
    }
}

/// The lazy pager serves windows of the camera's photos: from leaves that
/// agree with a camera whose leaf containers hold the photos `parts` (each
/// count known so far exact, each cached leaf its photos), `page(offset,
/// limit)` either serves `[offset, offset+limit)` of the camera's photos at
/// once, saying exactly whether photos follow and reporting the total or
/// none, or asks to load a leaf, with its walk agreeing; it keeps the
/// leaves as they were.
pub proof fn law_lazy_page_is_window(p: PagerView, parts: Seq<Seq<PhotoView>>, offset: usize, limit: usize)
    requires
        p.resolved,
        agrees(p.leaves, parts),
        concat_parts(parts, parts.len() as int).len() <= usize::MAX,
    ensures
        ({
            let (q, step) = page_spec(p, offset, limit);
            &&& q.leaves == p.leaves
            &&& step_agrees(parts, offset, limit, q, step)
        }),
{
    let w = start_walk(offset, limit);
    assert(window(concat_parts(parts, 0), offset as int, limit as int) =~= Seq::<PhotoView>::empty());
    lemma_after_walk_agrees(p.leaves, parts, w);
}

/// Loading a leaf to its end keeps the pager agreeing with the camera: when
/// the answer to the last `Browse` of a leaf completes it with the leaf's
/// photos (a leaf of sub-containers only is spliced instead and not
/// covered here), the pager caches them and goes on, serving the window of
/// the camera's photos or loading the next leaf it needs, in agreement.
pub proof fn law_lazy_load_completes(p: PagerView, parts: Seq<Seq<PhotoView>>, bp: BrowsePageView)
    requires
        p.resolved,
        wf(p),
        agrees(p.leaves, parts),
        concat_parts(parts, parts.len() as int).len() <= usize::MAX,
        p.task matches TaskView::Loading { walk, phase, load } && {
            &&& loading_agrees(p, parts, walk.offset, walk.limit)
            &&& bp.number_returned == 0 || sat_add(load.start, bp.number_returned) >= bp.total_matches
            &&& load.items + bp.items == parts[load.index]
            &&& !(parts[load.index].len() == 0 && (load.subs + bp.containers).len() > 0)
        },
    ensures
        p.task matches TaskView::Loading { walk, .. } && ({
            let (q, step) = resume_spec(p, Ok(bp));
            step_agrees(parts, walk.offset, walk.limit, q, step)
        }),
{
    if let TaskView::Loading { walk: wv, phase, load } = p.task {
        let i = load.index;
        let items = load.items + bp.items;
        let leaves2 = p.leaves.update(
            i,
            LeafView { id: p.leaves[i].id, count: Some(items.len() as usize), items, loaded: true },
        );
        assert(items.len() <= usize::MAX) by {
            lemma_concat_prefix(parts, i, parts.len() as int);
            lemma_concat_prefix(parts, i + 1, parts.len() as int);
            assert(concat_parts(parts, i + 1) == concat_parts(parts, i) + parts[i]);
        }
        assert(agrees(leaves2, parts)) by {
            assert forall|k: int| 0 <= k < leaves2.len() implies (#[trigger] leaves2[k].count matches Some(c) ==> c
                == parts[k].len()) && (leaves2[k].loaded ==> leaves2[k].items == parts[k]) by {
                if k != i {
                    assert(leaves2[k] == p.leaves[k]);
                }
            }
        }
        assert(walk_agrees(leaves2, parts, wv)) by {
            assert forall|k: int| 0 <= k < wv.i implies (#[trigger] leaves2[k].count) is Some by {
                if k != i {
                    assert(leaves2[k] == p.leaves[k]);
                    assert(p.leaves[k].count is Some);
                }
            }
        }
        match phase {
            PhaseView::Count => {
                assert(wv.i == i);
                assert(walk(leaves2, wv) == walk_from_count(leaves2, wv, items.len() as int));
                lemma_after_walk_agrees(leaves2, parts, wv);
            },
            PhaseView::Items { leaf_end } => {
                assert(wv.i == i);
                lemma_take_agrees(leaves2, parts, wv);
                lemma_after_walk_agrees(leaves2, parts, take_leaf(wv, parts[i], leaf_end));
            },
            PhaseView::Tally => {
                lemma_finished_agrees(leaves2, parts, wv);
            },
        }
    }
}

/// Consecutive pages from a pager that agrees with the camera continue one
/// another: when both `[o, o+a)` and then `[o+a, o+a+b)` are served, they
/// are, without gap or overlap, the photos `[o, o+a+b)` of the camera.
pub proof fn law_lazy_pages_tile(p: PagerView, parts: Seq<Seq<PhotoView>>, o: usize, a: usize, b: usize)
    requires
        p.resolved,
        agrees(p.leaves, parts),
        concat_parts(parts, parts.len() as int).len() <= usize::MAX,
        o + a <= usize::MAX,
    ensures
        ({
            let all = concat_parts(parts, parts.len() as int);
            let (q1, s1) = page_spec(p, o, a);
            let (q2, s2) = page_spec(q1, (o + a) as usize, b);
            s1 matches StepView::Done { photos: first, .. } ==> s2 matches StepView::Done { photos: second, .. }
                ==> first + second == window(all, o as int, a + b)
        }),
{
    law_lazy_page_is_window(p, parts, o, a);
    let (q1, s1) = page_spec(p, o, a);
    law_lazy_page_is_window(q1, parts, (o + a) as usize, b);
    let all = concat_parts(parts, parts.len() as int);
    assert(window(all, o as int, a as int) + window(all, o + a, b as int) =~= window(all, o as int, a + b));
}

/// The resolved leaves, when they agree with the camera, go on as a page
/// does: a level that lists containers (other than a single one, which is
/// descended into) or photos yields leaves, and the first step from them
/// agrees with the camera.
pub proof fn law_lazy_resolve(
    p: PagerView,
    parts: Seq<Seq<PhotoView>>,
    offset: usize,
    limit: usize,
    current: Seq<char>,
    bp: BrowsePageView,
)
    requires
        bp.items.len() > 0 || bp.containers.len() != 1,
        agrees(
            if bp.items.len() > 0 {
                seq![LeafView { id: current, count: Some(bp.total_matches), items: Seq::empty(), loaded: false }]
            } else {
                bp.containers.map_values(|c: ContainerView| leaf_of(c))
            },
            parts,
        ),
        concat_parts(parts, parts.len() as int).len() <= usize::MAX,
    ensures
        ({
            let (q, step) = resolve_spec(p, offset, limit, current, bp);
            step_agrees(parts, offset, limit, q, step)
        }),
{
    let leaves = if bp.items.len() > 0 {
        seq![LeafView { id: current, count: Some(bp.total_matches), items: Seq::empty(), loaded: false }]
    } else {
        bp.containers.map_values(|c: ContainerView| leaf_of(c))
    };
    let w = start_walk(offset, limit);
    assert(window(concat_parts(parts, 0), offset as int, limit as int) =~= Seq::<PhotoView>::empty());
    lemma_after_walk_agrees(leaves, parts, w);
}

/// A `Browse` answer that does not end the leaf being loaded keeps the
/// pager agreeing: the leaves and the walk stay, and the answer's photos
/// and containers are gathered.
pub proof fn law_lazy_load_continues(p: PagerView, parts: Seq<Seq<PhotoView>>, bp: BrowsePageView)
    requires
        agrees(p.leaves, parts),
        p.task matches TaskView::Loading { walk, load, .. } && loading_agrees(p, parts, walk.offset, walk.limit)
            && !(bp.number_returned == 0 || sat_add(load.start, bp.number_returned) >= bp.total_matches),
    ensures
        p.task matches TaskView::Loading { walk, phase, load } && ({
            let (q, step) = resume_spec(p, Ok(bp));
            &&& q.leaves == p.leaves
            &&& loading_agrees(q, parts, walk.offset, walk.limit)
            &&& q.task matches TaskView::Loading { walk: w2, phase: ph2, load: l2 } && w2 == walk && ph2 == phase
                && l2.index == load.index && l2.items == load.items + bp.items && l2.subs == load.subs
                + bp.containers
            &&& step == StepView::Browse {
                container_id: load.id,
                start: sat_add(load.start, bp.number_returned),
                count: PAGE,
            }
        }),
{
}

proof fn lemma_concat_congruent(s: Seq<Seq<PhotoView>>, t: Seq<Seq<PhotoView>>, n: int)
    requires
        0 <= n <= s.len(),
        n <= t.len(),
        s.take(n) == t.take(n),
    ensures
        concat_parts(s, n) == concat_parts(t, n),
    decreases n,
{
    if n > 0 {
        assert(s.take(n - 1) =~= s.take(n).take(n - 1));
        assert(t.take(n - 1) =~= t.take(n).take(n - 1));
        assert(s[n - 1] == s.take(n)[n - 1]);
        assert(t[n - 1] == t.take(n)[n - 1]);
        lemma_concat_congruent(s, t, n - 1);
    }
}

proof fn lemma_concat_append(x: Seq<Seq<PhotoView>>, y: Seq<Seq<PhotoView>>)
    ensures
        concat_parts(x + y, (x + y).len() as int) == concat_parts(x, x.len() as int) + concat_parts(y, y.len() as int),
    decreases y.len(),
{
    if y.len() == 0 {
        assert(x + y =~= x);
        assert(concat_parts(x, x.len() as int) + concat_parts(y, 0) =~= concat_parts(x, x.len() as int));
    } else {
        let y0 = y.drop_last();
        lemma_concat_append(x, y0);
        let n = (x + y).len() as int;
        assert((x + y).take(n - 1) =~= (x + y0).take(n - 1));
        lemma_concat_congruent(x + y, x + y0, n - 1);
        assert((x + y0).len() == n - 1);
        assert((x + y)[n - 1] == y.last());
        assert(y.take(y.len() - 1) =~= y0.take(y.len() - 1));
        lemma_concat_congruent(y, y0, y.len() - 1);
        assert(concat_parts(x, x.len() as int) + concat_parts(y0, y0.len() as int) + y.last() =~= concat_parts(
            x,
            x.len() as int,
        ) + (concat_parts(y0, y0.len() as int) + y.last()));
    }
}

/// A leaf that turns out to hold only sub-containers is replaced by them
/// and the first of them is loaded instead; when the camera's photos of
/// that leaf are those of its sub-containers in order (`subparts`), and the
/// counts they report are exact, the pager agrees with the camera seen
/// through the finer leaves, whose photos in order are unchanged. This is
/// stated for a leaf loaded for its count or for a tally; a leaf loaded for
/// its items is not covered (its walk would carry the old leaf's end).
pub proof fn law_lazy_splice(p: PagerView, parts: Seq<Seq<PhotoView>>, bp: BrowsePageView, subparts: Seq<Seq<PhotoView>>)
    requires
        p.resolved,
        wf(p),
        agrees(p.leaves, parts),
        concat_parts(parts, parts.len() as int).len() <= usize::MAX,
        p.task matches TaskView::Loading { walk, phase, load } && {
            let subs = load.subs + bp.containers;
            &&& !(phase is Items)
            &&& loading_agrees(p, parts, walk.offset, walk.limit)
            &&& bp.number_returned == 0 || sat_add(load.start, bp.number_returned) >= bp.total_matches
            &&& (load.items + bp.items).len() == 0
            &&& subs.len() > 0
            &&& subparts.len() == subs.len()
            &&& concat_parts(subparts, subparts.len() as int) == parts[load.index]
            &&& forall|k: int| 0 <= k < subs.len() ==> (#[trigger] subs[k].child_count matches Some(c) ==> c
                == subparts[k].len())
        },
    ensures
        p.task matches TaskView::Loading { walk, load, .. } && ({
            let parts2 = parts.take(load.index) + subparts + parts.skip(load.index + 1);
            let (q, step) = resume_spec(p, Ok(bp));
            &&& concat_parts(parts2, parts2.len() as int) == concat_parts(parts, parts.len() as int)
            &&& step_agrees(parts2, walk.offset, walk.limit, q, step)
        }),
{
    if let TaskView::Loading { walk: wv, phase, load } = p.task {
        let i = load.index;
        let subs = load.subs + bp.containers;
        let sl = subs.map_values(|c: ContainerView| leaf_of(c));
        let leaves2 = splice(p.leaves, i, sl);
        let parts2 = parts.take(i) + subparts + parts.skip(i + 1);
        // the photos in order are unchanged
        assert(parts =~= parts.take(i) + seq![parts[i]] + parts.skip(i + 1));
        lemma_concat_append(parts.take(i) + subparts, parts.skip(i + 1));
        lemma_concat_append(parts.take(i), subparts);
        lemma_concat_append(parts.take(i) + seq![parts[i]], parts.skip(i + 1));
        lemma_concat_append(parts.take(i), seq![parts[i]]);
        assert(concat_parts(seq![parts[i]], 0) =~= Seq::<PhotoView>::empty());
        assert(Seq::<PhotoView>::empty() + parts[i] =~= parts[i]);
        assert(concat_parts(seq![parts[i]], 1) =~= parts[i]);
        assert(concat_parts(parts2, parts2.len() as int) =~= concat_parts(parts, parts.len() as int));
        // the leaves agree with the finer parts
        assert(agrees(leaves2, parts2)) by {
            assert forall|k: int| 0 <= k < leaves2.len() implies (#[trigger] leaves2[k].count matches Some(c) ==> c
                == parts2[k].len()) && (leaves2[k].loaded ==> leaves2[k].items == parts2[k]) by {
                if k < i {
                    assert(leaves2[k] == p.leaves[k] && parts2[k] == parts[k]);
                } else if k < i + sl.len() {
                    assert(leaves2[k] == sl[k - i] && parts2[k] == subparts[k - i]);
                } else {
                    assert(leaves2[k] == p.leaves[k - sl.len() + 1] && parts2[k] == parts[k - sl.len() + 1]);
                }
            }
        }
        // the walk agrees with the finer parts: it is at or before the leaf
        assert(parts2.take(wv.i) =~= parts.take(wv.i));
        lemma_concat_congruent(parts2, parts, wv.i);
        assert(walk_agrees(leaves2, parts2, wv)) by {
            assert forall|k: int| 0 <= k < wv.i implies (#[trigger] leaves2[k].count) is Some by {
                assert(leaves2[k] == p.leaves[k]);
            }
        }
        lemma_concat_prefix(parts2, wv.i, parts2.len() as int);
        assert(leaves2[i] == sl[0]);
        assert(leaves2.len() == p.leaves.len() + sl.len() - 1);
        let (q, step) = resume_spec(p, Ok(bp));
        assert(q.leaves == leaves2);
        assert(step_agrees(parts2, wv.offset, wv.limit, q, step));
    }
}

/// A camera's answer to a `Browse` from `start` of a leaf container that
/// holds the photos `photos`: the next page of them, and their number.
pub open spec fn leaf_answer(photos: Seq<PhotoView>, start: usize) -> BrowsePageView {
    let from = min(start as int, photos.len() as int);
    let to = min(start + PAGE, photos.len() as int);
    BrowsePageView {
        items: photos.subrange(from, to),
        containers: Seq::empty(),
        number_returned: (to - from) as usize,
        total_matches: photos.len() as usize,
    }
}

/// The pager driven by a camera whose leaf container `id` holds the photos
/// `cam(id)`: each `Browse` is answered with the next page of them, for at
/// most `fuel` answers.
pub open spec fn drive(cam: spec_fn(Seq<char>) -> Seq<PhotoView>, p: PagerView, step: StepView, fuel: nat) -> (
    PagerView,
    StepView,
)
    decreases fuel,
{
    if fuel == 0 {
        (p, step)
    } else {
        match step {
            StepView::Browse { container_id, start, .. } => {
                let (q, s2) = resume_spec(p, Ok(leaf_answer(cam(container_id), start)));
                drive(cam, q, s2, (fuel - 1) as nat)
            },
            _ => (p, step),
        }
    }
}

/// The photos of each leaf, as the camera holds them.
pub open spec fn parts_of(cam: spec_fn(Seq<char>) -> Seq<PhotoView>, leaves: Seq<LeafView>) -> Seq<Seq<PhotoView>> {
    leaves.map_values(|l: LeafView| cam(l.id))
}

/// Photos still to load, plus one answer per leaf not cached yet.
pub open spec fn unloaded_work(leaves: Seq<LeafView>, parts: Seq<Seq<PhotoView>>, n: int) -> int
    decreases n,
{
    if n <= 0 || n > leaves.len() {
        0
    } else {
        unloaded_work(leaves, parts, n - 1) + if leaves[n - 1].loaded {
            0
        } else {
            parts[n - 1].len() + 1
        }
    }
}

/// The answers a driven pager may still need.
pub open spec fn drive_work(q: PagerView, parts: Seq<Seq<PhotoView>>) -> int {
    unloaded_work(q.leaves, parts, q.leaves.len() as int) - match q.task {
        TaskView::Loading { load, .. } => load.start as int,
        _ => 0,
    }
}

/// A driven pager between answers: a served page is the window; a `Browse`
/// goes on loading a leaf not cached yet, from where its photos gathered
/// so far end.
pub open spec fn drive_inv(
    cam: spec_fn(Seq<char>) -> Seq<PhotoView>,
    q: PagerView,
    step: StepView,
    offset: usize,
    limit: usize,
) -> bool {
    let parts = parts_of(cam, q.leaves);
    let all = concat_parts(parts, parts.len() as int);
    &&& agrees(q.leaves, parts)
    &&& wf(q)
    &&& q.resolved
    &&& all.len() <= usize::MAX
    &&& match step {
        StepView::Done { photos, total, has_more } => {
            &&& q.task is Idle
            &&& photos == window(all, offset as int, limit as int)
            &&& has_more == (offset + photos.len() < all.len())
            &&& (total is None || total == Some(all.len() as usize))
        },
        StepView::Browse { container_id, start, .. } => {
            &&& loading_agrees(q, parts, offset, limit)
            &&& q.task matches TaskView::Loading { load, .. } && container_id == q.leaves[load.index].id && start
                == load.start && load.id == q.leaves[load.index].id && load.subs.len() == 0 && load.start
                <= parts[load.index].len() && load.items == parts[load.index].take(load.start as int)
        },
        StepView::Failed { .. } => false,
    }
}

proof fn lemma_unloaded_work_update(leaves: Seq<LeafView>, parts: Seq<Seq<PhotoView>>, i: int, leaf: LeafView, n: int)
    requires
        0 <= i < leaves.len(),
        0 <= n <= leaves.len(),
        leaves.len() == parts.len(),
        !leaves[i].loaded,
        leaf.loaded,
    ensures
        unloaded_work(leaves.update(i, leaf), parts, n) == unloaded_work(leaves, parts, n) - if i < n {
            parts[i].len() + 1
        } else {
            0
        },
        unloaded_work(leaves, parts, n) >= 0,
    decreases n,
{
    if n > 0 {
        lemma_unloaded_work_update(leaves, parts, i, leaf, n - 1);
    }
}

proof fn lemma_unloaded_work_nonneg(leaves: Seq<LeafView>, parts: Seq<Seq<PhotoView>>, n: int)
    ensures
        unloaded_work(leaves, parts, n) >= 0,
    decreases n,
{
    if n > 0 {
        lemma_unloaded_work_nonneg(leaves, parts, n - 1);
    }
}

proof fn lemma_unloaded_work_at_least(leaves: Seq<LeafView>, parts: Seq<Seq<PhotoView>>, i: int, n: int)
    requires
        0 <= i < n <= leaves.len(),
        leaves.len() == parts.len(),
        !leaves[i].loaded,
    ensures
        unloaded_work(leaves, parts, n) >= parts[i].len() + 1,
    decreases n,
{
    if n - 1 > i {
        lemma_unloaded_work_at_least(leaves, parts, i, n - 1);
    }
    if n > 0 {
        lemma_unloaded_work_update(leaves, parts, i, LeafView { loaded: true, ..leaves[i] }, n - 1);
    }
}

/// One answer to a driven pager keeps it driven and takes away work.
proof fn lemma_drive_step(
    cam: spec_fn(Seq<char>) -> Seq<PhotoView>,
    q: PagerView,
    step: StepView,
    offset: usize,
    limit: usize,
)
    requires
        drive_inv(cam, q, step, offset, limit),
        step is Browse,
    ensures
        step matches StepView::Browse { container_id, start, .. } && ({
            let (q2, s2) = resume_spec(q, Ok(leaf_answer(cam(container_id), start)));
            &&& drive_inv(cam, q2, s2, offset, limit)
            &&& parts_of(cam, q2.leaves) == parts_of(cam, q.leaves)
            &&& drive_work(q2, parts_of(cam, q.leaves)) < drive_work(q, parts_of(cam, q.leaves))
            &&& drive_work(q, parts_of(cam, q.leaves)) >= 1
            &&& q2.leaves.len() == q.leaves.len()
            &&& forall|k: int| 0 <= k < q.leaves.len() ==> #[trigger] q2.leaves[k].id == q.leaves[k].id
        }),
{
    let parts = parts_of(cam, q.leaves);
    let all = concat_parts(parts, parts.len() as int);
    if let StepView::Browse { container_id, start, .. } = step {
        if let TaskView::Loading { walk: wv, phase, load } = q.task {
            let i = load.index;
            let photos = cam(container_id);
            assert(photos == parts[i]);
            let n = photos.len() as int;
            assert(n <= usize::MAX) by {
                lemma_concat_prefix(parts, i, parts.len() as int);
                lemma_concat_prefix(parts, i + 1, parts.len() as int);
                assert(concat_parts(parts, i + 1) == concat_parts(parts, i) + parts[i]);
            }
            let bp = leaf_answer(photos, start);
            let r = bp.number_returned as int;
            assert(r == min(start + PAGE, n) - start);
            lemma_unloaded_work_at_least(q.leaves, parts, i, q.leaves.len() as int);
            assert(load.items + bp.items =~= photos.take(start + r));
            if !(bp.number_returned == 0 || sat_add(load.start, bp.number_returned) >= bp.total_matches) {
                law_lazy_load_continues(q, parts, bp);
            } else {
                assert(start + r == n);
                assert(photos.take(n) =~= photos);
                law_lazy_load_completes(q, parts, bp);
                let (q2, s2) = resume_spec(q, Ok(bp));
                let leaves2 = q.leaves.update(
                    i,
                    LeafView { id: q.leaves[i].id, count: Some(n as usize), items: photos, loaded: true },
                );
                assert(q2.leaves == leaves2);
                assert(parts_of(cam, leaves2) =~= parts);
                lemma_unloaded_work_update(q.leaves, parts, i, leaves2[i], q.leaves.len() as int);
                if let StepView::Browse { .. } = s2 {
                    if let TaskView::Loading { load: l2, .. } = q2.task {
                        assert(l2.items =~= parts[l2.index].take(0));
                    }
                }
            }
        }
    }
}

proof fn lemma_drive(
    cam: spec_fn(Seq<char>) -> Seq<PhotoView>,
    q: PagerView,
    step: StepView,
    offset: usize,
    limit: usize,
    fuel: nat,
)
    requires
        drive_inv(cam, q, step, offset, limit),
        step is Browse ==> fuel > drive_work(q, parts_of(cam, q.leaves)),
    ensures
        ({
            let (q2, s2) = drive(cam, q, step, fuel);
            &&& drive_inv(cam, q2, s2, offset, limit)
            &&& s2 is Done
            &&& parts_of(cam, q2.leaves) == parts_of(cam, q.leaves)
        }),
    decreases fuel,
{
    if let StepView::Browse { container_id, start, .. } = step {
        lemma_drive_step(cam, q, step, offset, limit);
        let (q2, s2) = resume_spec(q, Ok(leaf_answer(cam(container_id), start)));
        lemma_drive(cam, q2, s2, offset, limit, (fuel - 1) as nat);
    }
}

/// The lazy pager serves every page: from a resolved pager that agrees with
/// a camera whose leaf container `id` holds the photos `cam(id)` (each
/// count it knows exact, each cached leaf its photos), `page(offset,
/// limit)` followed by `resume` with the camera's answers (the next page
/// of a leaf's photos each time) reaches, within the budget of one answer
/// per photo and per leaf not cached yet, the photos `[offset, offset+limit)`
/// of all the camera's photos in order, saying exactly whether photos
/// follow and reporting their total or none; the pager then still agrees
/// with the camera, and asked for the same window again it answers at once
/// with the same page, asking the camera for nothing.
pub proof fn law_lazy_page_served(cam: spec_fn(Seq<char>) -> Seq<PhotoView>, p: PagerView, offset: usize, limit: usize)
    requires
        p.resolved,
        agrees(p.leaves, parts_of(cam, p.leaves)),
        concat_parts(parts_of(cam, p.leaves), p.leaves.len() as int).len() <= usize::MAX,
    ensures
        ({
            let parts = parts_of(cam, p.leaves);
            let all = concat_parts(parts, parts.len() as int);
            let (q0, s0) = page_spec(p, offset, limit);
            let (q, s) = drive(cam, q0, s0, (unloaded_work(p.leaves, parts, p.leaves.len() as int) + 1) as nat);
            &&& parts_of(cam, q.leaves) == parts
            &&& q.resolved
            &&& agrees(q.leaves, parts)
            &&& page_spec(q, offset, limit) == (q, s)
            &&& s matches StepView::Done { photos, total, has_more } && photos == window(
                all,
                offset as int,
                limit as int,
            ) && has_more == (offset + photos.len() < all.len()) && (total is None || total == Some(
                all.len() as usize,
            ))
        }),
{
    let parts = parts_of(cam, p.leaves);
    law_lazy_page_is_window(p, parts, offset, limit);
    let (q0, s0) = page_spec(p, offset, limit);
    assert(parts_of(cam, q0.leaves) == parts);
    if let StepView::Browse { .. } = s0 {
        if let TaskView::Loading { load, .. } = q0.task {
            assert(load.items =~= parts[load.index].take(0));
            lemma_unloaded_work_update(
                p.leaves,
                parts,
                load.index,
                LeafView { loaded: true, ..p.leaves[load.index] },
                p.leaves.len() as int,
            );
        }
    }
    lemma_drive(cam, q0, s0, offset, limit, (unloaded_work(p.leaves, parts, p.leaves.len() as int) + 1) as nat);
    lemma_after_walk_tracks(p.leaves, offset, limit);
    lemma_drive_tracks(cam, q0, s0, offset, limit, (unloaded_work(p.leaves, parts, p.leaves.len() as int) + 1) as nat);
}

/// Driven pages continue one another: serving `[o, o+a)` and then, from
/// the pager as it is left, `[o+a, o+a+b)` (each driven by the camera's
/// answers as in `law_lazy_page_served`) gives, without gap or overlap, the
/// photos `[o, o+a+b)` of the camera; and serving a window again gives the
/// same photos and the same answer to whether more follow.
pub proof fn law_lazy_driven_pages_tile(
    cam: spec_fn(Seq<char>) -> Seq<PhotoView>,
    p: PagerView,
    o: usize,
    a: usize,
    b: usize,
)
    requires
        p.resolved,
        agrees(p.leaves, parts_of(cam, p.leaves)),
        concat_parts(parts_of(cam, p.leaves), p.leaves.len() as int).len() <= usize::MAX,
        o + a <= usize::MAX,
    ensures
        ({
            let parts = parts_of(cam, p.leaves);
            let all = concat_parts(parts, parts.len() as int);
            let (q0, s0) = page_spec(p, o, a);
            let (q1, s1) = drive(cam, q0, s0, (unloaded_work(p.leaves, parts, p.leaves.len() as int) + 1) as nat);
            let (r0, t0) = page_spec(q1, (o + a) as usize, b);
            let (q2, s2) = drive(cam, r0, t0, (unloaded_work(q1.leaves, parts, q1.leaves.len() as int) + 1) as nat);
            let (u0, v0) = page_spec(q1, o, a);
            let (q3, s3) = drive(cam, u0, v0, (unloaded_work(q1.leaves, parts, q1.leaves.len() as int) + 1) as nat);
            &&& s1 matches StepView::Done { photos: first, has_more: m1, .. }
            &&& s2 matches StepView::Done { photos: second, .. }
            &&& first + second == window(all, o as int, a + b)
            &&& s3 matches StepView::Done { photos: again, has_more: m3, .. } && again == first && m3 == m1
        }),
{
    let parts = parts_of(cam, p.leaves);
    let all = concat_parts(parts, parts.len() as int);
    law_lazy_page_served(cam, p, o, a);
    let (q0, s0) = page_spec(p, o, a);
    let (q1, s1) = drive(cam, q0, s0, (unloaded_work(p.leaves, parts, p.leaves.len() as int) + 1) as nat);
    assert(q1.leaves.len() == p.leaves.len());
    law_lazy_page_served(cam, q1, (o + a) as usize, b);
    law_lazy_page_served(cam, q1, o, a);
    assert(window(all, o as int, a as int) + window(all, o + a, b as int) =~= window(all, o as int, a + b));
}

/// Every leaf container answers with the pages of its photos `cam(id)`.
pub open spec fn answers_leaves(
    answer: spec_fn(Seq<char>, usize) -> BrowsePageView,
    cam: spec_fn(Seq<char>) -> Seq<PhotoView>,
    leaves: Seq<LeafView>,
) -> bool {
    forall|k: int, start: usize|
        0 <= k < leaves.len() ==> #[trigger] answer(leaves[k].id, start) == leaf_answer(cam(leaves[k].id), start)
}

/// The pager driven by a camera that answers a `Browse` of `id` from
/// `start` with `answer(id, start)`, for at most `fuel` answers.
pub open spec fn drive_with(
    answer: spec_fn(Seq<char>, usize) -> BrowsePageView,
    p: PagerView,
    step: StepView,
    fuel: nat,
) -> (PagerView, StepView)
    decreases fuel,
{
    if fuel == 0 {
        (p, step)
    } else {
        match step {
            StepView::Browse { container_id, start, .. } => {
                let (q, s2) = resume_spec(p, Ok(answer(container_id, start)));
                drive_with(answer, q, s2, (fuel - 1) as nat)
            },
            _ => (p, step),
        }
    }
}

proof fn lemma_drive_with(
    answer: spec_fn(Seq<char>, usize) -> BrowsePageView,
    cam: spec_fn(Seq<char>) -> Seq<PhotoView>,
    q: PagerView,
    step: StepView,
    offset: usize,
    limit: usize,
    fuel: nat,
)
    requires
        drive_inv(cam, q, step, offset, limit),
        answers_leaves(answer, cam, q.leaves),
    ensures
        drive_with(answer, q, step, fuel) == drive(cam, q, step, fuel),
    decreases fuel,
{
    if fuel > 0 {
        if let StepView::Browse { container_id, start, .. } = step {
            if let TaskView::Loading { load, .. } = q.task {
                assert(answer(q.leaves[load.index].id, start) == leaf_answer(cam(q.leaves[load.index].id), start));
            }
            lemma_drive_step(cam, q, step, offset, limit);
            let (q2, s2) = resume_spec(q, Ok(leaf_answer(cam(container_id), start)));
            assert(answers_leaves(answer, cam, q2.leaves)) by {
                assert forall|k: int, st: usize| 0 <= k < q2.leaves.len() implies #[trigger] answer(q2.leaves[k].id, st)
                    == leaf_answer(cam(q2.leaves[k].id), st) by {
                    assert(q2.leaves[k].id == q.leaves[k].id);
                    assert(answer(q.leaves[k].id, st) == leaf_answer(cam(q.leaves[k].id), st));
                }
            }
            lemma_drive_with(answer, cam, q2, s2, offset, limit, (fuel - 1) as nat);
        }
    }
}

/// The leaves a resolving `Browse` answer makes: the answered container
/// itself when it lists photos, else the containers it lists.
pub open spec fn resolved_leaves(current: Seq<char>, bp: BrowsePageView) -> Seq<LeafView> {
    if bp.items.len() > 0 {
        seq![LeafView { id: current, count: Some(bp.total_matches), items: Seq::empty(), loaded: false }]
    } else {
        bp.containers.map_values(|c: ContainerView| leaf_of(c))
    }
}

/// A camera tree the pager can resolve: from the root `"0"` a chain of
/// containers that each list one container (`spine`) down to one that
/// lists photos or other than one container; the leaves this gives agree
/// with the camera's photos `cam(id)` of each leaf (a reported count is
/// exact) and answer with pages of them.
pub open spec fn resolvable(
    answer: spec_fn(Seq<char>, usize) -> BrowsePageView,
    cam: spec_fn(Seq<char>) -> Seq<PhotoView>,
    spine: Seq<Seq<char>>,
) -> bool {
    let top = answer(spine.last(), 0);
    let leaves = resolved_leaves(spine.last(), top);
    &&& spine.len() >= 1
    &&& spine[0] == "0"@
    &&& forall|j: int|
        0 <= j < spine.len() - 1 ==> (#[trigger] answer(spine[j], 0)).items.len() == 0 && answer(spine[j], 0).containers.len()
            == 1 && answer(spine[j], 0).containers[0].id == spine[j + 1]
    &&& top.items.len() > 0 || top.containers.len() != 1
    &&& agrees(leaves, parts_of(cam, leaves))
    &&& answers_leaves(answer, cam, leaves)
    &&& concat_parts(parts_of(cam, leaves), leaves.len() as int).len() <= usize::MAX
}

proof fn lemma_resolve_drive(
    answer: spec_fn(Seq<char>, usize) -> BrowsePageView,
    cam: spec_fn(Seq<char>) -> Seq<PhotoView>,
    spine: Seq<Seq<char>>,
    p: PagerView,
    j: int,
    offset: usize,
    limit: usize,
    fuel: nat,
)
    requires
        resolvable(answer, cam, spine),
        0 <= j < spine.len(),
        p.task == (TaskView::Resolving { offset, limit, current: spine[j] }),
        fuel > (spine.len() - j) + unloaded_work(
            resolved_leaves(spine.last(), answer(spine.last(), 0)),
            parts_of(cam, resolved_leaves(spine.last(), answer(spine.last(), 0))),
            resolved_leaves(spine.last(), answer(spine.last(), 0)).len() as int,
        ),
    ensures
        ({
            let leaves = resolved_leaves(spine.last(), answer(spine.last(), 0));
            let parts = parts_of(cam, leaves);
            let all = concat_parts(parts, parts.len() as int);
            let (q, s) = drive_with(answer, p, StepView::Browse { container_id: spine[j], start: 0, count: PAGE }, fuel);
            &&& parts_of(cam, q.leaves) == parts
            &&& q.resolved
            &&& agrees(q.leaves, parts)
            &&& page_spec(q, offset, limit) == (q, s)
            &&& s matches StepView::Done { photos, total, has_more } && photos == window(
                all,
                offset as int,
                limit as int,
            ) && has_more == (offset + photos.len() < all.len()) && (total is None || total == Some(
                all.len() as usize,
            ))
        }),
    decreases spine.len() - j,
{
    let top = answer(spine.last(), 0);
    let leaves = resolved_leaves(spine.last(), top);
    lemma_unloaded_work_nonneg(leaves, parts_of(cam, leaves), leaves.len() as int);
    let bp = answer(spine[j], 0);
    let (q1, s1) = resume_spec(p, Ok(bp));
    let first = StepView::Browse { container_id: spine[j], start: 0, count: PAGE };
    assert(drive_with(answer, p, first, fuel) == drive_with(answer, q1, s1, (fuel - 1) as nat));
    if j < spine.len() - 1 {
        assert(bp.items.len() == 0 && bp.containers.len() == 1 && bp.containers[0].id == spine[j + 1]);
        assert(q1.task == (TaskView::Resolving { offset, limit, current: spine[j + 1] }));
        assert(s1 == (StepView::Browse { container_id: spine[j + 1], start: 0, count: PAGE }));
        lemma_resolve_drive(answer, cam, spine, q1, j + 1, offset, limit, (fuel - 1) as nat);
    } else {
        let leaves = resolved_leaves(spine[j], bp);
        let parts = parts_of(cam, leaves);
        law_lazy_resolve(p, parts, offset, limit, spine[j], bp);
        assert(q1.leaves == leaves);
        if let StepView::Browse { .. } = s1 {
            if let TaskView::Loading { load, .. } = q1.task {
                assert(load.items =~= parts[load.index].take(0));
                lemma_unloaded_work_update(
                    leaves,
                    parts,
                    load.index,
                    LeafView { loaded: true, ..leaves[load.index] },
                    leaves.len() as int,
                );
            }
        }
        lemma_drive_with(answer, cam, q1, s1, offset, limit, (fuel - 1) as nat);
        lemma_drive(cam, q1, s1, offset, limit, (fuel - 1) as nat);
        lemma_after_walk_tracks(leaves, offset, limit);
        lemma_drive_tracks(cam, q1, s1, offset, limit, (fuel - 1) as nat);
    }
}

/// The first page of a fresh pager is served from the camera: for a camera
/// tree it can resolve (a chain of single containers from the root down
/// to a level that lists the leaf containers, or photos), whose leaves'
/// reported counts are exact and which answers each `Browse` of a leaf with
/// the next page of its photos, `page(offset, limit)` on a new pager,
/// followed by `resume` with the camera's answers, reaches within one
/// answer per spine level, per photo and per leaf the photos `[offset,
/// offset+limit)` of all the leaves' photos in order, saying exactly
/// whether photos follow and reporting their total or none; asked for the
/// same window again, the pager answers at once with the same page.
pub proof fn law_lazy_first_page_served(
    answer: spec_fn(Seq<char>, usize) -> BrowsePageView,
    cam: spec_fn(Seq<char>) -> Seq<PhotoView>,
    spine: Seq<Seq<char>>,
    offset: usize,
    limit: usize,
)
    requires
        resolvable(answer, cam, spine),
    ensures
        ({
            let leaves = resolved_leaves(spine.last(), answer(spine.last(), 0));
            let parts = parts_of(cam, leaves);
            let all = concat_parts(parts, parts.len() as int);
            let fresh = PagerView { leaves: Seq::empty(), resolved: false, task: TaskView::Idle };
            let (q0, s0) = page_spec(fresh, offset, limit);
            let (q, s) = drive_with(
                answer,
                q0,
                s0,
                (spine.len() + unloaded_work(leaves, parts, leaves.len() as int) + 1) as nat,
            );
            &&& parts_of(cam, q.leaves) == parts
            &&& q.resolved
            &&& agrees(q.leaves, parts)
            &&& page_spec(q, offset, limit) == (q, s)
            &&& s matches StepView::Done { photos, total, has_more } && photos == window(
                all,
                offset as int,
                limit as int,
            ) && has_more == (offset + photos.len() < all.len()) && (total is None || total == Some(
                all.len() as usize,
            ))
        }),
{
    let leaves = resolved_leaves(spine.last(), answer(spine.last(), 0));
    let parts = parts_of(cam, leaves);
    let fresh = PagerView { leaves: Seq::empty(), resolved: false, task: TaskView::Idle };
    let (q0, s0) = page_spec(fresh, offset, limit);
    if leaves.len() > 0 {
        lemma_unloaded_work_update(leaves, parts, 0, LeafView { loaded: true, ..leaves[0] }, leaves.len() as int);
    }
    lemma_resolve_drive(
        answer,
        cam,
        spine,
        q0,
        0,
        offset,
        limit,
        (spine.len() + unloaded_work(leaves, parts, leaves.len() as int) + 1) as nat,
    );
}

} // verus!

verus! {

/// Pages of a fresh pager continue one another: on a camera tree it can
/// resolve (as in `law_lazy_first_page_served`), serving `[o, o+a)` from a
/// new pager and then, from the pager as it is left, `[o+a, o+a+b)` gives,
/// without gap or overlap, the photos `[o, o+a+b)` of all the leaves'
/// photos in order.
pub proof fn law_lazy_fresh_pages_tile(
    answer: spec_fn(Seq<char>, usize) -> BrowsePageView,
    cam: spec_fn(Seq<char>) -> Seq<PhotoView>,
    spine: Seq<Seq<char>>,
    o: usize,
    a: usize,
    b: usize,
)
    requires
        resolvable(answer, cam, spine),
        o + a <= usize::MAX,
    ensures
        ({
            let leaves = resolved_leaves(spine.last(), answer(spine.last(), 0));
            let parts = parts_of(cam, leaves);
            let all = concat_parts(parts, parts.len() as int);
            let fresh = PagerView { leaves: Seq::empty(), resolved: false, task: TaskView::Idle };
            let (q0, s0) = page_spec(fresh, o, a);
            let (q1, s1) = drive_with(
                answer,
                q0,
                s0,
                (spine.len() + unloaded_work(leaves, parts, leaves.len() as int) + 1) as nat,
            );
            let (r0, t0) = page_spec(q1, (o + a) as usize, b);
            let (q2, s2) = drive(cam, r0, t0, (unloaded_work(q1.leaves, parts, q1.leaves.len() as int) + 1) as nat);
            &&& s1 matches StepView::Done { photos: first, .. }
            &&& s2 matches StepView::Done { photos: second, .. }
            &&& first + second == window(all, o as int, a + b)
        }),
{
    let leaves = resolved_leaves(spine.last(), answer(spine.last(), 0));
    let parts = parts_of(cam, leaves);
    let all = concat_parts(parts, parts.len() as int);
    law_lazy_first_page_served(answer, cam, spine, o, a);
    let fresh = PagerView { leaves: Seq::empty(), resolved: false, task: TaskView::Idle };
    let (q0, s0) = page_spec(fresh, o, a);
    let (q1, s1) = drive_with(
        answer,
        q0,
        s0,
        (spine.len() + unloaded_work(leaves, parts, leaves.len() as int) + 1) as nat,
    );
    assert(q1.leaves.len() == parts_of(cam, q1.leaves).len());
    law_lazy_page_served(cam, q1, (o + a) as usize, b);
    assert(window(all, o as int, a as int) + window(all, o + a, b as int) =~= window(all, o as int, a + b));
}

} // verus!

verus! {

/// Where a walk stopped.
pub open spec fn outcome_walk(o: WalkOutcome) -> WalkView {
    match o {
        WalkOutcome::NeedCount(w) => w,
        WalkOutcome::NeedItems(w, _) => w,
        WalkOutcome::Finished(w) => w,
    }
}

/// What a walk outcome says of the leaf it stopped at.
pub open spec fn outcome_facts(leaves: Seq<LeafView>, o: WalkOutcome) -> bool {
    match o {
        WalkOutcome::NeedCount(w) => 0 <= w.i < leaves.len() && w.out.len() < w.limit && leaves[w.i].count is None,
        WalkOutcome::NeedItems(w, e) => {
            &&& 0 <= w.i < leaves.len()
            &&& w.out.len() < w.limit
            &&& !leaves[w.i].loaded
            &&& e > w.offset
            &&& leaves[w.i].count matches Some(c) && e == cap(w.base + c)
        },
        WalkOutcome::Finished(w) => w.i < 0 || w.i >= leaves.len() || w.out.len() >= w.limit,
    }
}

/// A walk reads only the leaves it passes: it counts each, and over leaves
/// equal on them it goes the same way to where it stopped.
proof fn lemma_walk_path(leaves: Seq<LeafView>, leaves2: Seq<LeafView>, w: WalkView)
    requires
        leaves2.len() == leaves.len(),
    ensures
        ({
            let o = walk(leaves, w);
            let wo = outcome_walk(o);
            &&& outcome_facts(leaves, o)
            &&& wo.i >= w.i
            &&& (wo.i == w.i ==> wo == w)
            &&& forall|j: int| w.i <= j < wo.i ==> (#[trigger] leaves[j].count) is Some
            &&& (forall|j: int| w.i <= j < wo.i ==> #[trigger] leaves2[j] == leaves[j]) ==> walk(leaves2, w) == walk(
                leaves2,
                wo,
            )
        }),
    decreases leaves.len() - w.i, 1int,
{
    if !(w.i < 0 || w.i >= leaves.len() || w.out.len() >= w.limit) {
        if let Some(c) = leaves[w.i].count {
            lemma_count_path(leaves, leaves2, w, c as int);
            let wo = outcome_walk(walk(leaves, w));
            if wo.i > w.i && (forall|j: int| w.i <= j < wo.i ==> #[trigger] leaves2[j] == leaves[j]) {
                assert(leaves2[w.i] == leaves[w.i]);
            }
        }
    }
}

proof fn lemma_count_path(leaves: Seq<LeafView>, leaves2: Seq<LeafView>, w: WalkView, c: int)
    requires
        leaves2.len() == leaves.len(),
        0 <= w.i < leaves.len(),
        w.out.len() < w.limit,
        leaves[w.i].count is Some,
        leaves[w.i].count.unwrap() as int == c,
    ensures
        ({
            let o = walk_from_count(leaves, w, c);
            let wo = outcome_walk(o);
            &&& outcome_facts(leaves, o)
            &&& wo.i >= w.i
            &&& (wo.i == w.i ==> wo == w)
            &&& forall|j: int| w.i <= j < wo.i ==> (#[trigger] leaves[j].count) is Some
            &&& wo.i > w.i ==> ((forall|j: int| w.i <= j < wo.i ==> #[trigger] leaves2[j] == leaves[j])
                ==> walk_from_count(leaves2, w, c) == walk(leaves2, wo))
        }),
    decreases leaves.len() - w.i, 0int,
{
    let leaf_end = cap(w.base + c);
    if leaf_end <= w.offset {
        let w2 = WalkView { i: w.i + 1, base: leaf_end, ..w };
        lemma_walk_path(leaves, leaves2, w2);
        let wo = outcome_walk(walk(leaves, w2));
        if forall|j: int| w.i <= j < wo.i ==> #[trigger] leaves2[j] == leaves[j] {
            assert(leaves2[w.i] == leaves[w.i]);
            assert forall|j: int| w2.i <= j < wo.i implies #[trigger] leaves2[j] == leaves[j] by {}
        }
    } else if leaves[w.i].loaded {
        let w2 = take_leaf(w, leaves[w.i].items, leaf_end);
        lemma_walk_path(leaves, leaves2, w2);
        let wo = outcome_walk(walk(leaves, w2));
        if forall|j: int| w.i <= j < wo.i ==> #[trigger] leaves2[j] == leaves[j] {
            assert(leaves2[w.i] == leaves[w.i]);
            assert forall|j: int| w2.i <= j < wo.i implies #[trigger] leaves2[j] == leaves[j] by {}
        }
    }
}

/// A driven pager's task is where a walk from the window's start over its
/// leaves now stops; a served page is what `page` gives at once.
pub open spec fn tracks(q: PagerView, step: StepView, offset: usize, limit: usize) -> bool {
    let o = walk(q.leaves, start_walk(offset, limit));
    match step {
        StepView::Done { .. } => page_spec(q, offset, limit) == (q, step),
        StepView::Browse { .. } => match q.task {
            TaskView::Loading { walk: w, phase, .. } => match phase {
                PhaseView::Count => o == WalkOutcome::NeedCount(w),
                PhaseView::Items { leaf_end } => o == WalkOutcome::NeedItems(w, leaf_end),
                PhaseView::Tally => o == WalkOutcome::Finished(w),
            },
            _ => false,
        },
        StepView::Failed { .. } => false,
    }
}

proof fn lemma_after_walk_tracks(leaves: Seq<LeafView>, offset: usize, limit: usize)
    ensures
        ({
            let (q, s) = after_walk(leaves, walk(leaves, start_walk(offset, limit)));
            tracks(q, s, offset, limit)
        }),
{
}

/// One camera answer to a driven pager keeps its task where the walk from
/// the start stops.
proof fn lemma_drive_step_tracks(
    cam: spec_fn(Seq<char>) -> Seq<PhotoView>,
    q: PagerView,
    step: StepView,
    offset: usize,
    limit: usize,
)
    requires
        drive_inv(cam, q, step, offset, limit),
        tracks(q, step, offset, limit),
        step is Browse,
    ensures
        step matches StepView::Browse { container_id, start, .. } && ({
            let (q2, s2) = resume_spec(q, Ok(leaf_answer(cam(container_id), start)));
            tracks(q2, s2, offset, limit)
        }),
{
    let parts = parts_of(cam, q.leaves);
    if let StepView::Browse { container_id, start, .. } = step {
        if let TaskView::Loading { walk: w, phase, load } = q.task {
            let i = load.index;
            let photos = cam(container_id);
            assert(photos == parts[i]);
            assert(photos.len() <= usize::MAX) by {
                lemma_concat_prefix(parts, i, parts.len() as int);
                lemma_concat_prefix(parts, i + 1, parts.len() as int);
                assert(concat_parts(parts, i + 1) == concat_parts(parts, i) + parts[i]);
            }
            let bp = leaf_answer(photos, start);
            let r = bp.number_returned as int;
            assert(r == min(start + PAGE, photos.len() as int) - start);
            assert(load.items + bp.items =~= photos.take(start + r));
            if bp.number_returned == 0 || sat_add(load.start, bp.number_returned) >= bp.total_matches {
                assert(start + r == photos.len());
                assert(photos.take(photos.len() as int) =~= photos);
                let items = load.items + bp.items;
                assert(items == photos);
                assert((load.subs + bp.containers).len() == 0);
                let leaves2 = q.leaves.update(
                    i,
                    LeafView { id: q.leaves[i].id, count: Some(items.len() as usize), items, loaded: true },
                );
                let w0 = start_walk(offset, limit);
                lemma_walk_path(q.leaves, leaves2, w0);
                assert forall|j: int| 0 <= j < w.i implies #[trigger] leaves2[j] == q.leaves[j] by {}
                assert(walk(leaves2, w0) == walk(leaves2, w));
                match phase {
                    PhaseView::Count => {
                        assert(walk(leaves2, w) == walk_from_count(leaves2, w, items.len() as int));
                        lemma_after_walk_tracks(leaves2, offset, limit);
                    },
                    PhaseView::Items { leaf_end } => {
                        assert(q.leaves[i].count == Some(photos.len() as usize));
                        assert(walk(leaves2, w) == walk(leaves2, take_leaf(w, items, leaf_end)));
                        lemma_after_walk_tracks(leaves2, offset, limit);
                    },
                    PhaseView::Tally => {
                        assert(walk(leaves2, w) == WalkOutcome::Finished(w));
                        lemma_after_walk_tracks(leaves2, offset, limit);
                    },
                }
            }
        }
    }
}

proof fn lemma_drive_tracks(
    cam: spec_fn(Seq<char>) -> Seq<PhotoView>,
    q: PagerView,
    step: StepView,
    offset: usize,
    limit: usize,
    fuel: nat,
)
    requires
        drive_inv(cam, q, step, offset, limit),
        tracks(q, step, offset, limit),
    ensures
        ({
            let (q2, s2) = drive(cam, q, step, fuel);
            tracks(q2, s2, offset, limit)
        }),
    decreases fuel,
{
    if fuel > 0 {
        if let StepView::Browse { container_id, start, .. } = step {
            lemma_drive_step(cam, q, step, offset, limit);
            lemma_drive_step_tracks(cam, q, step, offset, limit);
            let (q2, s2) = resume_spec(q, Ok(leaf_answer(cam(container_id), start)));
            lemma_drive_tracks(cam, q2, s2, offset, limit, (fuel - 1) as nat);
        }
    }
}

} // verus!
