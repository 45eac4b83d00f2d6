//! Runtime connection state: which source (if any) is connected, the cached
//! id → photo map, and the last error; and the epoch that orders connect
//! attempts so that a stale one cannot overwrite a newer one.

use vstd::prelude::*;
use crate::browse::{BrowsePage, photos_view};
use crate::camera::{Camera, CameraView};
use crate::http::{HttpCall, browse_envelope, browse_headers, headers_view, UA};
use crate::mock::{
    MockFetch, MockSource, MockView, clock_seed, file_lookup, mock_page_spec, seeded_state, svg_spec,
    synthetic_spec, wall_clock_nanos,
};
use crate::model::{Photo, PhotoView};
use crate::pager::{
    Page, Pager, PagerStep, PagerView, StepView, browsed_view, page_spec, resume_spec, wf as pager_wf,
};
use crate::text::{chars_of, eq_chars};

verus! {

/// A real camera connected over its Wi-Fi access point, paginated lazily.
pub struct RealCamera {
    cam: Camera,
    pager: Pager,
}

impl RealCamera {
    pub fn new(cam: Camera) -> (r: RealCamera)
        ensures
            r.camera()@ == cam@,
            r.pager()@ == (PagerView { leaves: Seq::empty(), resolved: false, task: crate::pager::TaskView::Idle }),
    {
        RealCamera { cam, pager: Pager::new() }
    }

    pub closed spec fn camera(&self) -> Camera {
        self.cam
    }

    pub closed spec fn pager(&self) -> Pager {
        self.pager
    }
}

/// What backs the gallery: a real camera, or mock data.
pub enum Source {
    Camera(RealCamera),
    Mock(MockSource),
}

pub enum SourceView {
    Camera(CameraView, PagerView),
    Mock(MockView),
}

impl View for Source {
    type V = SourceView;

    open spec fn view(&self) -> SourceView {
        match self {
            Source::Camera(rc) => SourceView::Camera(rc.camera()@, rc.pager()@),
            Source::Mock(m) => SourceView::Mock(m@),
        }
    }
}

/// The display label of a source: the camera's friendly name (else its
/// host), or `mock ({n} photos)`.
pub open spec fn source_label(s: SourceView) -> Seq<char> {
    match s {
        SourceView::Camera(c, _) => match c.friendly_name {
            Some(n) => n,
            None => c.host,
        },
        SourceView::Mock(m) => "mock ("@ + crate::decimal::decimal(m.photos.len()) + " photos)"@,
    }
}

impl Source {
    /// A human label for the source.
    pub fn host(&self) -> (r: String)
        ensures
            r@ == source_label(self@),
    {
        match self {
            Source::Camera(rc) => rc.cam.label().to_owned(),
            Source::Mock(m) => m.host(),
        }
    }
}

/// What a mock connect builds.
#[derive(Debug)]
pub enum MockSpec {
    Synthetic(usize),
    /// A directory of images, and how many photos to produce (None = one per
    /// file; more than the file count cycles through them).
    Dir(String, Option<usize>),
}

/// How a connect produces its source: a real camera, or a mock after a
/// simulated delay (so that the connecting UI can be exercised).
#[derive(Debug)]
pub enum Connector {
    Real,
    Mock { spec: MockSpec, delay_secs: u64 },
}

/// A snapshot of connection state.
#[derive(Debug)]
pub struct StateInfo {
    pub connected: bool,
    pub host: Option<String>,
    pub error: Option<String>,
    pub photo_count: usize,
}

/// The connection state: the active source, the photos listed from it by
/// id, the last connect error, the connect epoch and the source generation.
/// Sharing it between the server's workers is the server's business.
pub struct AppState {
    source: Option<Source>,
    photos: Vec<Photo>,
    last_error: Option<String>,
    epoch: u64,
    source_gen: u64,
    connector: Connector,
}

pub struct AppStateView {
    pub source: Option<SourceView>,
    /// Photos listed since the source was set, by id.
    pub cache: Map<Seq<char>, PhotoView>,
    pub error: Option<Seq<char>>,
    /// Bumped by each connect attempt as it begins.
    pub epoch: u64,
    /// Bumped whenever the active source is swapped; media URLs carry it.
    pub source_gen: u64,
}

pub open spec fn ids(v: Seq<PhotoView>) -> Seq<Seq<char>> {
    v.map_values(|p: PhotoView| p.id)
}

/// A vector of photos with distinct ids, as a map by id.
pub open spec fn cache_map(v: Seq<PhotoView>) -> Map<Seq<char>, PhotoView> {
    Map::new(|id: Seq<char>| ids(v).contains(id), |id: Seq<char>| v[ids(v).index_of(id)])
}

pub open spec fn opt_view(o: Option<String>) -> Option<Seq<char>> {
    match o {
        Some(s) => Some(s@),
        None => None,
    }
}

impl View for AppState {
    type V = AppStateView;

    closed spec fn view(&self) -> AppStateView {
        AppStateView {
            source: match self.source {
                Some(s) => Some(s@),
                None => None,
            },
            cache: cache_map(photos_view(self.photos@)),
            error: opt_view(self.last_error),
            epoch: self.epoch,
            source_gen: self.source_gen,
        }
    }
}

pub open spec fn info_spec(s: AppStateView, i: StateInfo) -> bool {
    &&& i.connected == (s.source is Some)
    &&& opt_view(i.host) == match s.source {
        Some(src) => Some(source_label(src)),
        None => None,
    }
    &&& opt_view(i.error) == s.error
    &&& i.photo_count == s.cache.dom().len()
}

/// The cache after merging `photos` in order (a later photo with the same
/// id replaces an earlier one).
pub open spec fn merge(cache: Map<Seq<char>, PhotoView>, photos: Seq<PhotoView>) -> Map<Seq<char>, PhotoView>
    decreases photos.len(),
{
    if photos.len() == 0 {
        cache
    } else {
        merge(cache, photos.drop_last()).insert(photos.last().id, photos.last())
    }
}

/// Milliseconds since the epoch of a clock reading in nanoseconds (kept to
/// 64 bits), or 0 without one.
pub open spec fn clock_millis(nanos: Option<u128>) -> u64 {
    match nanos {
        Some(n) => (n / 1_000_000) as u64,
        None => 0,
    }
}

impl Default for AppState {
    fn default() -> (r: AppState)
        ensures
            r.wf(),
            r@.source is None,
            r@.cache == Map::<Seq<char>, PhotoView>::empty(),
            r@.error is None,
            r@.epoch == 0,
            r.connector_spec() == Connector::Real,
    {
        AppState::new()
    }
}

impl AppState {
    pub closed spec fn wf(&self) -> bool {
        &&& ids(photos_view(self.photos@)).no_duplicates()
        &&& match self.source {
            Some(Source::Camera(rc)) => pager_wf(rc.pager@),
            _ => true,
        }
    }

    pub closed spec fn connector_spec(&self) -> Connector {
        self.connector
    }

    proof fn lemma_empty_cache(v: Seq<Photo>)
        requires
            v.len() == 0,
        ensures
            cache_map(photos_view(v)) == Map::<Seq<char>, PhotoView>::empty(),
            ids(photos_view(v)).no_duplicates(),
    {
        assert(cache_map(photos_view(v)) =~= Map::<Seq<char>, PhotoView>::empty());
    }

    /// Disconnected, with the media cache-buster seeded from the clock
    /// (milliseconds since the epoch, or 0), so that it differs across
    /// restarts too.
    pub fn new() -> (r: AppState)
        ensures
            r.wf(),
            r@.source is None,
            r@.cache == Map::<Seq<char>, PhotoView>::empty(),
            r@.error is None,
            r@.epoch == 0,
            r.connector_spec() == Connector::Real,
            exists|nanos: Option<u128>| r@.source_gen == clock_millis(nanos),
    {
        let nanos = wall_clock_nanos();
        let millis: u64 = match nanos {
            Some(n) => (n / 1_000_000) as u64,
            None => 0,
        };
        assert(millis == clock_millis(nanos));
        let r = AppState {
            source: None,
            photos: Vec::new(),
            last_error: None,
            epoch: 0,
            source_gen: millis,
            connector: Connector::Real,
        };
        proof {
            AppState::lemma_empty_cache(r.photos@);
        }
        r
    }

    /// Already connected to `n` synthetic mock photos.
    pub fn with_mock(n: usize) -> (r: AppState)
        requires
            n <= usize::MAX - 7000,
        ensures
            r.wf(),
            r@.source matches Some(SourceView::Mock(m)) && m.files.len() == 0 && exists|nanos: Option<u128>|
                m.photos == synthetic_spec(n as nat, seeded_state(clock_seed(nanos))),
            r@.cache == Map::<Seq<char>, PhotoView>::empty(),
            r@.error is None,
            r@.epoch == 0,
            r.connector_spec() == Connector::Real,
    {
        let mut state = AppState::new();
        state.source = Some(Source::Mock(MockSource::new(n)));
        state.source_gen = state.source_gen.wrapping_add(1);
        state
    }

    /// Disconnected, with a connector that resolves to `n` synthetic photos
    /// after `delay_secs`.
    pub fn mock_synthetic(n: usize, delay_secs: u64) -> (r: AppState)
        ensures
            r.wf(),
            r@.source is None,
            r@.cache == Map::<Seq<char>, PhotoView>::empty(),
            r@.error is None,
            r@.epoch == 0,
            r.connector_spec() == (Connector::Mock { spec: MockSpec::Synthetic(n), delay_secs }),
    {
        AppState::with_connector(Connector::Mock { spec: MockSpec::Synthetic(n), delay_secs })
    }

    /// Like `mock_synthetic`, with photos backed by the image files in `dir`.
    pub fn mock_dir(dir: String, count: Option<usize>, delay_secs: u64) -> (r: AppState)
        ensures
            r.wf(),
            r@.source is None,
            r@.cache == Map::<Seq<char>, PhotoView>::empty(),
            r@.error is None,
            r@.epoch == 0,
            r.connector_spec() == (Connector::Mock { spec: MockSpec::Dir(dir, count), delay_secs }),
    {
        AppState::with_connector(Connector::Mock { spec: MockSpec::Dir(dir, count), delay_secs })
    }

    fn with_connector(connector: Connector) -> (r: AppState)
        ensures
            r.wf(),
            r@.source is None,
            r@.cache == Map::<Seq<char>, PhotoView>::empty(),
            r@.error is None,
            r@.epoch == 0,
            r.connector_spec() == connector,
    {
        let mut state = AppState::new();
        state.connector = connector;
        state
    }

    /// How connects produce their source.
    pub fn connector(&self) -> (r: &Connector)
        ensures
            *r == self.connector_spec(),
    {
        &self.connector
    }

    /// The current source generation.
    pub fn source_gen(&self) -> (r: u64)
        ensures
            r == self@.source_gen,
    {
        self.source_gen
    }

    /// A snapshot of the connection state.
    pub fn info(&self) -> (r: StateInfo)
        requires
            self.wf(),
        ensures
            info_spec(self@, r),
    {
        let host = match &self.source {
            Some(s) => Some(s.host()),
            None => None,
        };
        let error = match &self.last_error {
            Some(e) => Some(e.clone()),
            None => None,
        };
        proof {
            let v = photos_view(self.photos@);
            let ids_v = ids(v);
            ids_v.unique_seq_to_set();
            assert(cache_map(v).dom() =~= ids_v.to_set());
        }
        StateInfo { connected: self.source.is_some(), host, error, photo_count: self.photos.len() }
    }
}

} // verus!

verus! {

/// A source is usable: a camera's pager is consistent.
pub open spec fn source_ok(s: SourceView) -> bool {
    match s {
        SourceView::Camera(_, pv) => pager_wf(pv),
        SourceView::Mock(_) => true,
    }
}

pub open spec fn result_source_view(r: Result<Source, String>) -> Result<SourceView, Seq<char>> {
    match r {
        Ok(s) => Ok(s@),
        Err(e) => Err(e@),
    }
}

/// A connect attempt claims the next epoch (wrapping around, as an atomic
/// counter's `fetch_add` does).
pub open spec fn begin_spec(s: AppStateView) -> AppStateView {
    AppStateView {
        epoch: if s.epoch == u64::MAX {
            0
        } else {
            (s.epoch + 1) as u64
        },
        ..s
    }
}

/// The state after the attempt that claimed `my_epoch` finishes with
/// `result`: a superseded attempt changes nothing; a success makes its
/// source the active one with an empty cache, no error and a new source
/// generation; a failure records its error and keeps the active source.
pub open spec fn commit_spec(s: AppStateView, my_epoch: u64, result: Result<SourceView, Seq<char>>) -> AppStateView {
    if s.epoch != my_epoch {
        s
    } else {
        match result {
            Ok(src) => AppStateView {
                source: Some(src),
                cache: Map::empty(),
                error: None,
                source_gen: if s.source_gen == u64::MAX {
                    0
                } else {
                    (s.source_gen + 1) as u64
                },
                ..s
            },
            Err(e) => AppStateView { error: Some(e), ..s },
        }
    }
}

/// What the attempt's caller is told.
pub open spec fn commit_result_ok(s: AppStateView, s2: AppStateView, my_epoch: u64, result: Result<SourceView, Seq<char>>, r: Result<StateInfo, String>) -> bool {
    if s.epoch != my_epoch {
        r matches Err(m) && m@ == "superseded by a newer connect"@
    } else {
        match result {
            Ok(_) => r matches Ok(info) && info_spec(s2, info),
            Err(e) => r matches Err(m) && m@ == e,
        }
    }
}

impl AppState {
    /// Claims a connect epoch; the newest claimant has the highest.
    pub fn begin_connect(&mut self) -> (r: u64)
        requires
            old(self).wf(),
        ensures
            final(self).wf(),
            final(self)@ == begin_spec(old(self)@),
            final(self).connector_spec() == old(self).connector_spec(),
            r == final(self)@.epoch,
    {
        self.epoch = self.epoch.wrapping_add(1);
        self.epoch
    }

    /// Commits a connect's result, but only if no newer connect has begun
    /// since `my_epoch` was claimed; otherwise touches nothing.
    pub fn commit_connect(&mut self, my_epoch: u64, result: Result<Source, String>) -> (r: Result<StateInfo, String>)
        requires
            old(self).wf(),
            result matches Ok(s) ==> source_ok(s@),
        ensures
            final(self).wf(),
            final(self)@ == commit_spec(old(self)@, my_epoch, result_source_view(result)),
            final(self).connector_spec() == old(self).connector_spec(),
            commit_result_ok(old(self)@, final(self)@, my_epoch, result_source_view(result), r),
    {
        if self.epoch != my_epoch {
            return Err("superseded by a newer connect".to_owned());
        }
        match result {
            Ok(source) => {
                self.source = Some(source);
                self.photos = Vec::new();
                self.last_error = None;
                self.source_gen = self.source_gen.wrapping_add(1);
                proof {
                    AppState::lemma_empty_cache(self.photos@);
                }
                Ok(self.info())
            },
            Err(e) => {
                self.last_error = Some(e.clone());
                Err(e)
            },
        }
    }

    /// The cached photo with id `id`.
    pub fn photo(&self, id: &str) -> (r: Option<Photo>)
        requires
            self.wf(),
        ensures
            match self@.cache.get(id@) {
                Some(p) => r matches Some(q) && q@ == p,
                None => r is None,
            },
    {
        let ghost v = photos_view(self.photos@);
        let key = chars_of(id);
        let mut i: usize = 0;
        while i < self.photos.len()
            invariant
                0 <= i <= self.photos@.len(),
                v == photos_view(self.photos@),
                self.wf(),
                key@ == id@,
                forall|k: int| 0 <= k < i ==> ids(v)[k] != id@,
            decreases self.photos.len() - i,
        {
            if eq_chars(&chars_of(self.photos[i].id.as_str()), &key) {
                proof {
                    assert(ids(v)[i as int] == id@);
                    assert(ids(v).contains(id@));
                    let j = ids(v).index_of(id@);
                    assert(0 <= j < ids(v).len() && ids(v)[j] == id@);
                    assert(j == i);
                }
                return Some(self.photos[i].clone());
            }
            i = i + 1;
        }
        proof {
            assert(!ids(v).contains(id@));
        }
        None
    }
}

} // verus!

verus! {

impl AppState {
    /// Caches `p` under its id, replacing an earlier photo with that id.
    fn cache_insert(&mut self, p: Photo)
        requires
            old(self).wf(),
        ensures
            final(self).wf(),
            final(self)@ == (AppStateView { cache: old(self)@.cache.insert(p@.id, p@), ..old(self)@ }),
            final(self).connector_spec() == old(self).connector_spec(),
    {
        let ghost v = photos_view(self.photos@);
        let ghost pv = p@;
        let key = chars_of(p.id.as_str());
        let mut i: usize = 0;
        while i < self.photos.len()
            invariant
                0 <= i <= self.photos@.len(),
                v == photos_view(self.photos@),
                self.wf(),
                self@ == old(self)@,
                self.connector_spec() == old(self).connector_spec(),
                ids(v).no_duplicates(),
                key@ == pv.id,
                pv == p@,
                forall|k: int| 0 <= k < i ==> ids(v)[k] != pv.id,
            decreases self.photos.len() - i,
        {
            if eq_chars(&chars_of(self.photos[i].id.as_str()), &key) {
                self.photos.set(i, p);
                proof {
                    let v2 = photos_view(self.photos@);
                    assert(v2 == v.update(i as int, pv));
                    assert(ids(v2) =~= ids(v));
                    assert forall|k: Seq<char>| #[trigger] cache_map(v2).contains_key(k) implies cache_map(v2)[k]
                        == cache_map(v).insert(pv.id, pv)[k] by {
                        let j = ids(v2).index_of(k);
                        let j0 = ids(v).index_of(k);
                        assert(ids(v2).contains(k));
                        assert(0 <= j < ids(v2).len() && ids(v2)[j] == k);
                        assert(ids(v)[j] == k);
                        if k == pv.id {
                            assert(ids(v)[i as int] == k);
                            assert(j == i);
                        } else {
                            assert(ids(v).contains(k));
                            assert(0 <= j0 < ids(v).len() && ids(v)[j0] == k);
                            assert(j == j0);
                            assert(j != i);
                        }
                    }
                    assert(ids(v).contains(pv.id)) by {
                        assert(ids(v)[i as int] == pv.id);
                    }
                    assert(cache_map(v2).dom() =~= cache_map(v).insert(pv.id, pv).dom());
                    assert(cache_map(v2) =~= cache_map(v).insert(pv.id, pv));
                }
                return;
            }
            i = i + 1;
        }
        self.photos.push(p);
        proof {
            let v2 = photos_view(self.photos@);
            assert(v2 =~= v.push(pv));
            assert(ids(v2) =~= ids(v).push(pv.id));
            assert(!ids(v).contains(pv.id));
            assert(ids(v2).no_duplicates()) by {
                assert forall|a: int, b: int| 0 <= a < ids(v2).len() && 0 <= b < ids(v2).len() && a != b implies ids(v2)[a]
                    != ids(v2)[b] by {
                    if a < ids(v).len() && b < ids(v).len() {
                    } else if a == ids(v).len() {
                        assert(ids(v)[b] != pv.id);
                    } else {
                        assert(ids(v)[a] != pv.id);
                    }
                }
            }
            assert forall|k: Seq<char>| #[trigger] cache_map(v2).contains_key(k) implies cache_map(v2)[k]
                == cache_map(v).insert(pv.id, pv)[k] by {
                let j = ids(v2).index_of(k);
                assert(ids(v2).contains(k));
                assert(0 <= j < ids(v2).len() && ids(v2)[j] == k);
                if k == pv.id {
                    assert(ids(v2)[ids(v).len() as int] == k);
                    assert(j == ids(v).len());
                } else {
                    assert(j < ids(v).len());
                    assert(ids(v)[j] == k);
                    assert(ids(v).contains(k));
                    let j0 = ids(v).index_of(k);
                    assert(0 <= j0 < ids(v).len() && ids(v)[j0] == k);
                    assert(j0 == j);
                }
            }
            assert forall|k: Seq<char>| ids(v2).contains(k) <==> (ids(v).contains(k) || k == pv.id) by {
                if ids(v).contains(k) {
                    let j = choose|j: int| 0 <= j < ids(v).len() && ids(v)[j] == k;
                    assert(ids(v2)[j] == k);
                }
                if k == pv.id {
                    assert(ids(v2)[ids(v).len() as int] == k);
                }
                if ids(v2).contains(k) && k != pv.id {
                    let j = choose|j: int| 0 <= j < ids(v2).len() && ids(v2)[j] == k;
                    assert(j < ids(v).len());
                    assert(ids(v)[j] == k);
                }
            }
            assert(cache_map(v2).dom() =~= cache_map(v).insert(pv.id, pv).dom());
            assert(cache_map(v2) =~= cache_map(v).insert(pv.id, pv));
        }
    }

    /// Caches each of `photos` in order.
    fn cache_merge(&mut self, photos: &Vec<Photo>)
        requires
            old(self).wf(),
        ensures
            final(self).wf(),
            final(self)@ == (AppStateView { cache: merge(old(self)@.cache, photos_view(photos@)), ..old(self)@ }),
            final(self).connector_spec() == old(self).connector_spec(),
    {
        let ghost s0 = self@;
        let ghost pv = photos_view(photos@);
        let mut i: usize = 0;
        while i < photos.len()
            invariant
                0 <= i <= photos@.len(),
                pv == photos_view(photos@),
                self.wf(),
                self@ == (AppStateView { cache: merge(s0.cache, pv.take(i as int)), ..s0 }),
                self.connector_spec() == old(self).connector_spec(),
            decreases photos.len() - i,
        {
            self.cache_insert(photos[i].clone());
            assert(pv.take(i + 1).drop_last() =~= pv.take(i as int));
            i = i + 1;
        }
        assert(pv.take(photos@.len() as int) =~= pv);
    }
}

} // verus!

verus! {

/// What listing a page asks for next.
#[derive(Debug)]
pub enum ListStep {
    /// Perform this `Browse` of `container_id`, read the answer with
    /// `parse_browse`, and hand it to `resume_list`.
    Browse { call: HttpCall, container_id: String },
    /// The page, or why it cannot be served.
    Done(Result<Page, String>),
}

pub open spec fn page_view(p: Page) -> (Seq<PhotoView>, Option<usize>, bool) {
    (photos_view(p.photos@), p.total, p.has_more)
}

/// How the state and the step follow a pager step on camera `c`.
pub open spec fn camera_step_post(
    old_s: AppStateView,
    c: CameraView,
    pv2: PagerView,
    step: StepView,
    new_s: AppStateView,
    r: ListStep,
) -> bool {
    match step {
        StepView::Browse { container_id, start, count } => {
            &&& new_s == AppStateView { source: Some(SourceView::Camera(c, pv2)), ..old_s }
            &&& r matches ListStep::Browse { call, container_id: id } && id@ == container_id && call.method@
                == "POST"@ && call.url@ == c.control_url && headers_view(call.headers@) == browse_headers(
                c.service_type,
            ) && (call.body matches Some(b) && b@
                == vstd::utf8::encode_utf8(browse_envelope(c.service_type, container_id, start as nat, count as nat)))
        },
        StepView::Done { photos, total, has_more } => {
            &&& new_s == AppStateView {
                source: Some(SourceView::Camera(c, pv2)),
                cache: merge(old_s.cache, photos),
                ..old_s
            }
            &&& r matches ListStep::Done(Ok(pg)) && page_view(pg) == (photos, total, has_more)
        },
        StepView::Failed { message } => {
            &&& new_s == AppStateView { source: Some(SourceView::Camera(c, pv2)), ..old_s }
            &&& r matches ListStep::Done(Err(e)) && e@ == message
        },
    }
}

/// What `list_page(offset, limit)` does: nothing without a source; a mock
/// serves its slice at once; a camera's pager takes the first step. A
/// served page is merged into the cache.
pub open spec fn list_post(old_s: AppStateView, new_s: AppStateView, offset: usize, limit: usize, r: ListStep) -> bool {
    match old_s.source {
        None => new_s == old_s && (r matches ListStep::Done(Err(e)) && e@ == "not connected"@),
        Some(SourceView::Mock(m)) => {
            let (p, t, more) = mock_page_spec(m.photos, offset as nat, limit as nat);
            &&& new_s == AppStateView { cache: merge(old_s.cache, p), ..old_s }
            &&& r matches ListStep::Done(Ok(pg)) && page_view(pg) == (p, Some(t), more)
        },
        Some(SourceView::Camera(c, pv)) => {
            let (pv2, step) = page_spec(pv, offset, limit);
            camera_step_post(old_s, c, pv2, step, new_s, r)
        },
    }
}

/// Fetching a photo's media, per source.
#[derive(Debug)]
pub enum FetchStep {
    /// Perform this `GET`, read the reply with `parse_response`, and pass it
    /// with the URL to `http_get_bytes`.
    Http(HttpCall),
    /// Read this file; `content_type_for` its name gives the type.
    File(String),
    /// The bytes and content type, or why there are none.
    Done(Result<(Vec<u8>, String), String>),
}

pub open spec fn fetch_post(s: AppStateView, photo: PhotoView, url: Seq<char>, r: FetchStep) -> bool {
    match s.source {
        None => r matches FetchStep::Done(Err(e)) && e@ == "not connected"@,
        Some(SourceView::Camera(_, _)) => r matches FetchStep::Http(call) && call.method@ == "GET"@ && call.url@ == url
            && headers_view(call.headers@) == seq![("User-Agent"@, UA@)] && call.body is None,
        Some(SourceView::Mock(m)) => match file_lookup(m.files, photo.id) {
            Some(path) => r matches FetchStep::File(p) && p@ == path,
            None => r matches FetchStep::Done(Ok((b, ct))) && b@ == vstd::utf8::encode_utf8(svg_spec(photo))
                && ct@ == "image/svg+xml; charset=utf-8"@,
        },
    }
}

impl AppState {
    fn camera_step(&mut self, cam: Camera, pager: Pager, step: PagerStep) -> (r: ListStep)
        requires
            old(self).wf(),
            pager_wf(pager@),
        ensures
            final(self).wf(),
            final(self).connector_spec() == old(self).connector_spec(),
            camera_step_post(
                AppStateView { source: final(self)@.source, ..old(self)@ },
                cam@,
                pager@,
                step@,
                final(self)@,
                r,
            ),
    {
        match step {
            PagerStep::Browse(req) => {
                let call = cam.browse_children(req.container_id.as_str(), req.start, req.count);
                self.source = Some(Source::Camera(RealCamera { cam, pager }));
                ListStep::Browse { call, container_id: req.container_id }
            },
            PagerStep::Done(page) => {
                self.source = Some(Source::Camera(RealCamera { cam, pager }));
                self.cache_merge(&page.photos);
                ListStep::Done(Ok(page))
            },
            PagerStep::Failed(e) => {
                self.source = Some(Source::Camera(RealCamera { cam, pager }));
                ListStep::Done(Err(e))
            },
        }
    }

    /// Lists photos `[offset, offset+limit)` of the current source, merging
    /// them into the id → photo cache (so that media routes can resolve ids
    /// across pages).
    pub fn list_page(&mut self, offset: usize, limit: usize) -> (r: ListStep)
        requires
            old(self).wf(),
        ensures
            final(self).wf(),
            final(self).connector_spec() == old(self).connector_spec(),
            list_post(old(self)@, final(self)@, offset, limit, r),
    {
        let mut src: Option<Source> = None;
        core::mem::swap(&mut src, &mut self.source);
        match src {
            None => ListStep::Done(Err("not connected".to_owned())),
            Some(Source::Mock(m)) => {
                let page = m.list_page(offset, limit);
                self.source = Some(Source::Mock(m));
                self.cache_merge(&page.photos);
                ListStep::Done(Ok(page))
            },
            Some(Source::Camera(rc)) => {
                let RealCamera { cam, pager } = rc;
                let mut pager = pager;
                let step = pager.page(offset, limit);
                self.camera_step(cam, pager, step)
            },
        }
    }

    /// Hands the camera's pager the answer to the `Browse` it asked for.
    pub fn resume_list(&mut self, browsed: Result<BrowsePage, String>) -> (r: ListStep)
        requires
            old(self).wf(),
            old(self)@.source matches Some(SourceView::Camera(_, pv)) && !(pv.task is Idle),
        ensures
            final(self).wf(),
            final(self).connector_spec() == old(self).connector_spec(),
            old(self)@.source matches Some(SourceView::Camera(c, pv)) && ({
                let (pv2, step) = resume_spec(pv, browsed_view(browsed));
                camera_step_post(old(self)@, c, pv2, step, final(self)@, r)
            }),
    {
        let mut src: Option<Source> = None;
        core::mem::swap(&mut src, &mut self.source);
        match src {
            Some(Source::Camera(rc)) => {
                let RealCamera { cam, pager } = rc;
                let mut pager = pager;
                let step = pager.resume(browsed);
                self.camera_step(cam, pager, step)
            },
            _ => {
                assert(false);
                ListStep::Done(Err(String::new()))
            },
        }
    }

    /// The media of a photo's thumbnail.
    pub fn fetch_thumb(&self, photo: &Photo) -> (r: FetchStep)
        ensures
            fetch_post(self@, photo@, photo.thumb_url@, r),
    {
        match &self.source {
            None => FetchStep::Done(Err("not connected".to_owned())),
            Some(Source::Camera(rc)) => FetchStep::Http(rc.cam.fetch(photo.thumb_url.as_str())),
            Some(Source::Mock(m)) => match m.fetch_thumb(photo) {
                MockFetch::File(p) => FetchStep::File(p),
                MockFetch::Ready(b, ct) => FetchStep::Done(Ok((b, ct))),
            },
        }
    }

    /// The media of a photo's full-resolution image.
    pub fn fetch_full(&self, photo: &Photo) -> (r: FetchStep)
        ensures
            fetch_post(self@, photo@, photo.full_url@, r),
    {
        match &self.source {
            None => FetchStep::Done(Err("not connected".to_owned())),
            Some(Source::Camera(rc)) => FetchStep::Http(rc.cam.fetch(photo.full_url.as_str())),
            Some(Source::Mock(m)) => match m.fetch_full(photo) {
                MockFetch::File(p) => FetchStep::File(p),
                MockFetch::Ready(b, ct) => FetchStep::Done(Ok((b, ct))),
            },
        }
    }
}

} // verus!

verus! {

/// A connect attempt that a newer one has superseded changes nothing when
/// it finishes, whatever its result: the newer attempt's epoch stands.
pub proof fn law_superseded_connect_changes_nothing(s: AppStateView, result: Result<SourceView, Seq<char>>)
    ensures
        ({
            let first = begin_spec(s);
            let second = begin_spec(first);
            &&& first.epoch != second.epoch
            &&& commit_spec(second, first.epoch, result) == second
        }),
{
}

/// A failed connect keeps the active source and its cache: a bad request
/// never drops a good connection. Only the error is recorded.
pub proof fn law_failed_connect_keeps_source(s: AppStateView, error: Seq<char>)
    ensures
        ({
            let s2 = commit_spec(s, s.epoch, Err(error));
            &&& s2.source == s.source
            &&& s2.cache == s.cache
            &&& s2.source_gen == s.source_gen
            &&& s2.error == Some(error)
        }),
{
}

/// A successful current connect swaps in its source, forgets the cached
/// photos and the last error, and changes the source generation (so that
/// media URLs of the old source are not served from the browser's cache).
pub proof fn law_connect_swaps_source(s: AppStateView, src: SourceView)
    ensures
        ({
            let s2 = commit_spec(s, s.epoch, Ok(src));
            &&& s2.source == Some(src)
            &&& s2.cache == Map::<Seq<char>, PhotoView>::empty()
            &&& s2.error is None
            &&& s2.source_gen != s.source_gen
            &&& s2.epoch == s.epoch
        }),
{
}

/// Every photo of a listed page can be resolved by its id afterwards, and
/// ids it does not list keep what they had; where the page's ids are
/// distinct, each resolves to that very photo.
pub proof fn law_listed_photos_resolve(cache: Map<Seq<char>, PhotoView>, photos: Seq<PhotoView>)
    ensures
        forall|i: int| 0 <= i < photos.len() ==> #[trigger] merge(cache, photos).contains_key(photos[i].id),
        forall|id: Seq<char>|
            !ids(photos).contains(id) ==> (#[trigger] merge(cache, photos).contains_key(id) == cache.contains_key(id)
                && (cache.contains_key(id) ==> merge(cache, photos)[id] == cache[id])),
        ids(photos).no_duplicates() ==> forall|i: int|
            0 <= i < photos.len() ==> #[trigger] merge(cache, photos)[photos[i].id] == photos[i],
    decreases photos.len(),
{
    if photos.len() > 0 {
        let init = photos.drop_last();
        let last = photos.last();
        law_listed_photos_resolve(cache, init);
        assert(merge(cache, photos) == merge(cache, init).insert(last.id, last));
        assert(ids(init) =~= ids(photos).drop_last());
        assert forall|id: Seq<char>| !ids(photos).contains(id) implies !ids(init).contains(id) by {
            if ids(init).contains(id) {
                let j = choose|j: int| 0 <= j < ids(init).len() && ids(init)[j] == id;
                assert(ids(photos)[j] == id);
            }
        }
        assert forall|i: int| 0 <= i < photos.len() implies #[trigger] merge(cache, photos).contains_key(photos[i].id) by {
            if i < photos.len() - 1 {
                assert(init[i] == photos[i]);
                assert(merge(cache, init).contains_key(init[i].id));
            }
        }
        assert forall|id: Seq<char>| !ids(photos).contains(id) implies id != photos.last().id by {
            assert(ids(photos)[photos.len() - 1] == photos.last().id);
        }
        if ids(photos).no_duplicates() {
            assert(ids(init).no_duplicates());
            assert forall|i: int| 0 <= i < photos.len() implies #[trigger] merge(cache, photos)[photos[i].id]
                == photos[i] by {
                if i < photos.len() - 1 {
                    assert(init[i] == photos[i]);
                    assert(ids(photos)[i] != ids(photos)[photos.len() - 1]);
                    assert(merge(cache, init)[init[i].id] == init[i]);
                }
            }
        }
    }
}

} // verus!

verus! {

/// How a connect attempt produces its source, between claiming its epoch
/// and committing its result (without holding the state meanwhile).
#[derive(Debug)]
pub enum ConnectPlan {
    /// Validate the camera at a typed host: perform this `GET` of its
    /// description at `desc_url`, read the reply with `parse_response`, and
    /// pass it through `http_get_bytes` to `Camera::from_desc_url`.
    Describe { desc_url: String, call: HttpCall },
    /// Auto-discover with `Camera::discover`, then describe what it found.
    Discover,
    /// Wait `delay_secs` seconds, then build this mock source.
    Mock { spec: MockSpec, delay_secs: u64 },
}

/// The plan for a connect to `host` (auto-discovery when none) with
/// `connector`.
pub open spec fn plan_ok(connector: Connector, host: Option<Seq<char>>, plan: ConnectPlan) -> bool {
    match connector {
        Connector::Real => match host {
            Some(h) => plan matches ConnectPlan::Describe { desc_url, call } && desc_url@ == crate::camera::desc_url_spec(
                h,
            ) && call.method@ == "GET"@ && call.url@ == desc_url@ && headers_view(call.headers@) == seq![
                ("User-Agent"@, UA@),
            ] && call.body is None,
            None => plan is Discover,
        },
        Connector::Mock { spec, delay_secs } => plan matches ConnectPlan::Mock { spec: s, delay_secs: d } && s
            == spec && d == delay_secs,
    }
}

impl AppState {
    /// Starts a connect to `host` (or auto-discovery when `None`): claims the
    /// next epoch and says how to produce the source. The caller produces it
    /// and hands the outcome to `commit_connect` with the epoch, which
    /// validates before swapping and lets a newer attempt supersede this one.
    pub fn connect(&mut self, host: Option<&str>) -> (r: (u64, ConnectPlan))
        requires
            old(self).wf(),
        ensures
            final(self).wf(),
            final(self)@ == begin_spec(old(self)@),
            final(self).connector_spec() == old(self).connector_spec(),
            r.0 == final(self)@.epoch,
            plan_ok(
                old(self).connector_spec(),
                match host {
                    Some(h) => Some(h@),
                    None => None,
                },
                r.1,
            ),
    {
        let epoch = self.begin_connect();
        let plan = match &self.connector {
            Connector::Real => match host {
                Some(h) => {
                    let desc_url = Camera::desc_url(h);
                    let call = crate::http::get_call(desc_url.as_str());
                    ConnectPlan::Describe { desc_url, call }
                },
                None => ConnectPlan::Discover,
            },
            Connector::Mock { spec, delay_secs } => {
                let s = match spec {
                    MockSpec::Synthetic(n) => MockSpec::Synthetic(*n),
                    MockSpec::Dir(d, c) => MockSpec::Dir(d.clone(), *c),
                };
                ConnectPlan::Mock { spec: s, delay_secs: *delay_secs }
            },
        };
        (epoch, plan)
    }
}

} // verus!

verus! {

/// The source generation, which media URLs carry, changes only when a
/// connect swaps in its source, and then by one (wrapping at `u64::MAX`):
/// claiming an epoch, listing, and a failed or superseded connect keep it.
pub proof fn law_source_gen_changes_only_on_swap(
    s: AppStateView,
    s2: AppStateView,
    offset: usize,
    limit: usize,
    r: ListStep,
    c: CameraView,
    pv2: PagerView,
    step: StepView,
    my_epoch: u64,
    result: Result<SourceView, Seq<char>>,
)
    ensures
        begin_spec(s).source_gen == s.source_gen,
        list_post(s, s2, offset, limit, r) ==> s2.source_gen == s.source_gen,
        camera_step_post(s, c, pv2, step, s2, r) ==> s2.source_gen == s.source_gen,
        commit_spec(s, my_epoch, result).source_gen == if s.epoch == my_epoch && result is Ok {
            if s.source_gen == u64::MAX {
                0
            } else {
                (s.source_gen + 1) as u64
            }
        } else {
            s.source_gen
        },
{
}

/// A page served by `list_page` or `resume_list` is merged into the cache:
/// each of its photos then resolves by id (to that very photo where the
/// page's ids are distinct) and every other id keeps what it had; a step
/// that serves no page leaves the cache as it was.
pub proof fn law_served_page_resolves(
    s: AppStateView,
    s2: AppStateView,
    offset: usize,
    limit: usize,
    c: CameraView,
    pv2: PagerView,
    step: StepView,
    r: ListStep,
)
    requires
        list_post(s, s2, offset, limit, r) || camera_step_post(s, c, pv2, step, s2, r),
    ensures
        !(r matches ListStep::Done(Ok(_))) ==> s2.cache == s.cache,
        r matches ListStep::Done(Ok(pg)) ==> ({
            let photos = photos_view(pg.photos@);
            &&& s2.cache == merge(s.cache, photos)
            &&& forall|i: int| 0 <= i < photos.len() ==> #[trigger] s2.cache.contains_key(photos[i].id)
            &&& forall|id: Seq<char>|
                !ids(photos).contains(id) ==> (#[trigger] s2.cache.contains_key(id) == s.cache.contains_key(id)
                    && (s.cache.contains_key(id) ==> s2.cache[id] == s.cache[id]))
            &&& ids(photos).no_duplicates() ==> forall|i: int|
                0 <= i < photos.len() ==> #[trigger] s2.cache[photos[i].id] == photos[i]
        }),
{
    if let ListStep::Done(Ok(pg)) = r {
        law_listed_photos_resolve(s.cache, photos_view(pg.photos@));
    }
}

} // verus!

verus! {

impl AppState {
    /// Whether a camera listing awaits the answer to a `Browse`, so that
    /// `resume_list` may be called.
    pub fn awaits_browse(&self) -> (r: bool)
        ensures
            r == (self@.source matches Some(SourceView::Camera(_, pv)) && !(pv.task is Idle)),
    {
        match &self.source {
            Some(Source::Camera(rc)) => rc.pager.is_busy(),
            _ => false,
        }
    }
}

} // verus!

verus! {

/// The ids merging `photos` into a cache adds: exactly theirs.
proof fn lemma_merge_dom(cache: Map<Seq<char>, PhotoView>, photos: Seq<PhotoView>)
    ensures
        merge(cache, photos).dom() == cache.dom() + ids(photos).to_set(),
    decreases photos.len(),
{
    if photos.len() > 0 {
        lemma_merge_dom(cache, photos.drop_last());
        assert(ids(photos.drop_last()) =~= ids(photos).drop_last());
        assert(ids(photos) =~= ids(photos.drop_last()).push(photos.last().id));
        assert(ids(photos).to_set() =~= ids(photos.drop_last()).to_set().insert(photos.last().id)) by {
            assert forall|x: Seq<char>| ids(photos).to_set().contains(x) <==> ids(
                photos.drop_last(),
            ).to_set().insert(photos.last().id).contains(x) by {
                if ids(photos).contains(x) {
                    let k = choose|k: int| 0 <= k < ids(photos).len() && ids(photos)[k] == x;
                    if k < photos.len() - 1 {
                        assert(ids(photos.drop_last())[k] == x);
                    }
                }
                if ids(photos.drop_last()).contains(x) {
                    let k = choose|k: int| 0 <= k < ids(photos.drop_last()).len() && ids(photos.drop_last())[k] == x;
                    assert(ids(photos)[k] == x);
                }
                if x == photos.last().id {
                    assert(ids(photos)[photos.len() - 1] == x);
                }
            }
        }
        assert(merge(cache, photos).dom() =~= cache.dom() + ids(photos).to_set());
    } else {
        assert(ids(photos).to_set() =~= Set::<Seq<char>>::empty());
        assert(merge(cache, photos).dom() =~= cache.dom() + ids(photos).to_set());
    }
}

/// What a listing step keeps of the state's info and how it grows the
/// photo count: the error, whether a source is active and its label stay;
/// the cached ids grow by the ids of a served page, else stay.
pub open spec fn info_follows_listing(s: AppStateView, s2: AppStateView, r: ListStep) -> bool {
    &&& s2.error == s.error
    &&& (s2.source is Some) == (s.source is Some)
    &&& (s2.source matches Some(src2) ==> (s.source matches Some(src) && source_label(src2) == source_label(src)))
    &&& s2.cache.dom() == match r {
        ListStep::Done(Ok(pg)) => s.cache.dom() + ids(photos_view(pg.photos@)).to_set(),
        _ => s.cache.dom(),
    }
}

/// The connection info follows the calls made: claiming an epoch changes
/// nothing else; a listing (`list_page`, or `resume_list` on the active
/// camera) keeps the error, the active source and its label, and adds to
/// the photo count exactly the ids of the page it serves; a connect that
/// finishes changes the state only as `commit_spec` says (a superseded one
/// not at all, a failed one its error, a successful one its source, with
/// no error and no photos). So the info always shows the active source,
/// the error of the last failed current connect since the last successful
/// one, and the distinct ids listed since then.
pub proof fn law_info_follows_calls(
    s: AppStateView,
    s2: AppStateView,
    offset: usize,
    limit: usize,
    c: CameraView,
    pv2: PagerView,
    step: StepView,
    r: ListStep,
    my_epoch: u64,
    result: Result<SourceView, Seq<char>>,
)
    ensures
        begin_spec(s) == (AppStateView { epoch: begin_spec(s).epoch, ..s }),
        list_post(s, s2, offset, limit, r) ==> info_follows_listing(s, s2, r),
        (s.source matches Some(SourceView::Camera(c0, _)) && c0 == c && camera_step_post(s, c, pv2, step, s2, r))
            ==> info_follows_listing(s, s2, r),
        commit_spec(s, my_epoch, result) == if s.epoch != my_epoch {
            s
        } else {
            match result {
                Ok(src) => AppStateView {
                    source: Some(src),
                    cache: Map::empty(),
                    error: None,
                    source_gen: commit_spec(s, my_epoch, result).source_gen,
                    ..s
                },
                Err(e) => AppStateView { error: Some(e), ..s },
            }
        },
{
    if let ListStep::Done(Ok(pg)) = r {
        lemma_merge_dom(s.cache, photos_view(pg.photos@));
    }
    if list_post(s, s2, offset, limit, r) {
        if let Some(SourceView::Mock(m)) = s.source {
            let (p, t, more) = mock_page_spec(m.photos, offset as nat, limit as nat);
            lemma_merge_dom(s.cache, p);
        }
    }
}

} // verus!

verus! {

/// A call that changes the state, as its contract relates the states
/// before and after it (`info`, `photo` and the fetches take the state
/// unchanged).
pub enum StateCall {
    /// A connect attempt claims its epoch.
    Begin,
    /// `list_page(offset, limit)` answered `r`.
    List { offset: usize, limit: usize, r: ListStep },
    /// `resume_list` took the active camera `c`'s pager to `pager` with
    /// `step`, answering `r`.
    CameraStep { c: CameraView, pager: PagerView, step: StepView, r: ListStep },
    /// The connect attempt that claimed `my_epoch` finished with `result`.
    Commit { my_epoch: u64, result: Result<SourceView, Seq<char>> },
}

pub open spec fn call_post(s: AppStateView, call: StateCall, s2: AppStateView) -> bool {
    match call {
        StateCall::Begin => s2 == begin_spec(s),
        StateCall::List { offset, limit, r } => list_post(s, s2, offset, limit, r),
        StateCall::CameraStep { c, pager, step, r } => s.source matches Some(SourceView::Camera(c0, _)) && c0 == c
            && camera_step_post(s, c, pager, step, s2, r),
        StateCall::Commit { my_epoch, result } => s2 == commit_spec(s, my_epoch, result),
    }
}

/// `states[k + 1]` follows `states[k]` by `calls[k]`, for each call.
pub open spec fn runs(states: Seq<AppStateView>, calls: Seq<StateCall>) -> bool {
    &&& states.len() == calls.len() + 1
    &&& forall|k: int| 0 <= k < calls.len() ==> call_post(#[trigger] states[k], calls[k], states[k + 1])
}

/// Whether call `k` is a connect that finished current with `Ok`.
pub open spec fn swaps_at(states: Seq<AppStateView>, calls: Seq<StateCall>, k: int) -> bool {
    calls[k] matches StateCall::Commit { my_epoch, result } && states[k].epoch == my_epoch && result is Ok
}

/// How many of the first `n` calls swapped in a source.
pub open spec fn swap_count(states: Seq<AppStateView>, calls: Seq<StateCall>, n: int) -> nat
    decreases n,
{
    if n <= 0 {
        0
    } else {
        swap_count(states, calls, n - 1) + if swaps_at(states, calls, n - 1) {
            1nat
        } else {
            0nat
        }
    }
}

/// The error after the first `n` calls: that of the last current connect
/// that failed, unless a current connect succeeded after it.
pub open spec fn error_after(states: Seq<AppStateView>, calls: Seq<StateCall>, n: int) -> Option<Seq<char>>
    decreases n,
{
    if n <= 0 {
        states[0].error
    } else {
        match calls[n - 1] {
            StateCall::Commit { my_epoch, result } => if states[n - 1].epoch == my_epoch {
                match result {
                    Ok(_) => None,
                    Err(e) => Some(e),
                }
            } else {
                error_after(states, calls, n - 1)
            },
            _ => error_after(states, calls, n - 1),
        }
    }
}

/// The ids listed after the first `n` calls: those of each page served
/// since the last current connect that succeeded.
pub open spec fn listed_after(states: Seq<AppStateView>, calls: Seq<StateCall>, n: int) -> Set<Seq<char>>
    decreases n,
{
    if n <= 0 {
        states[0].cache.dom()
    } else if swaps_at(states, calls, n - 1) {
        Set::empty()
    } else {
        match calls[n - 1] {
            StateCall::List { r: ListStep::Done(Ok(pg)), .. } => listed_after(states, calls, n - 1) + ids(
                photos_view(pg.photos@),
            ).to_set(),
            StateCall::CameraStep { r: ListStep::Done(Ok(pg)), .. } => listed_after(states, calls, n - 1) + ids(
                photos_view(pg.photos@),
            ).to_set(),
            _ => listed_after(states, calls, n - 1),
        }
    }
}

/// The label of the active source after the first `n` calls: that of the
/// source the last current successful connect swapped in.
pub open spec fn label_after(states: Seq<AppStateView>, calls: Seq<StateCall>, n: int) -> Option<Seq<char>>
    decreases n,
{
    if n <= 0 {
        match states[0].source {
            Some(src) => Some(source_label(src)),
            None => None,
        }
    } else {
        match calls[n - 1] {
            StateCall::Commit { my_epoch, result: Ok(src) } => if states[n - 1].epoch == my_epoch {
                Some(source_label(src))
            } else {
                label_after(states, calls, n - 1)
            },
            _ => label_after(states, calls, n - 1),
        }
    }
}

/// `g + n`, wrapping at `u64::MAX` as the source generation does.
pub open spec fn wrap_add(g: u64, n: nat) -> u64 {
    ((g + n) % 0x1_0000_0000_0000_0000) as u64
}

/// After any run of calls, the state's info is its history: a source is
/// active, and labelled, as the last successful current connect left it
/// (or as it was); the error is that of the last failed current connect
/// since then (superseded connects count for nothing); the photo count is
/// the number of distinct ids listed since then; and the source generation
/// has moved on by exactly the number of sources swapped in.
pub proof fn law_info_is_history(states: Seq<AppStateView>, calls: Seq<StateCall>, n: int)
    requires
        runs(states, calls),
        0 <= n <= calls.len(),
    ensures
        states[n].error == error_after(states, calls, n),
        states[n].cache.dom() == listed_after(states, calls, n),
        match states[n].source {
            Some(src) => label_after(states, calls, n) == Some(source_label(src)),
            None => label_after(states, calls, n) is None,
        },
        states[n].source_gen == wrap_add(states[0].source_gen, swap_count(states, calls, n)),
    decreases n,
{
    if n > 0 {
        law_info_is_history(states, calls, n - 1);
        let s = states[n - 1];
        let s2 = states[n];
        assert(call_post(states[n - 1], calls[n - 1], states[n]));
        match calls[n - 1] {
            StateCall::Begin => {},
            StateCall::List { offset, limit, r } => {
                law_info_follows_calls(
                    s,
                    s2,
                    offset,
                    limit,
                    vstd::pervasive::arbitrary(),
                    vstd::pervasive::arbitrary(),
                    vstd::pervasive::arbitrary(),
                    r,
                    0,
                    Err(Seq::empty()),
                );
            },
            StateCall::CameraStep { c, pager, step, r } => {
                law_info_follows_calls(s, s2, 0, 0, c, pager, step, r, 0, Err(Seq::empty()));
            },
            StateCall::Commit { my_epoch, result } => {},
        }
        let g = states[0].source_gen;
        let m = swap_count(states, calls, n - 1);
        assert(wrap_add(g, m + 1) == if wrap_add(g, m) == u64::MAX { 0 } else { (wrap_add(g, m) + 1) as u64 }) by {
            assert((g + m + 1) % 0x1_0000_0000_0000_0000 == if (g + m) % 0x1_0000_0000_0000_0000
                == 0xffff_ffff_ffff_ffff {
                0
            } else {
                (g + m) % 0x1_0000_0000_0000_0000 + 1
            }) by (nonlinear_arith);
        }
    } else {
        assert(states[0].source_gen == wrap_add(states[0].source_gen, 0)) by (nonlinear_arith)
            requires states[0].source_gen < 0x1_0000_0000_0000_0000;
    }
}

} // verus!
