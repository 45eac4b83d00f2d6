//! Sony PlayMemories / DLNA camera client: the camera's description, its
//! ContentDirectory, and the requests that enumerate and fetch its photos.
//! The requests are `HttpCall`s for the caller to perform.

use vstd::prelude::*;
use crate::browse::{
    BrowsePage, BrowsePageView, ContainerView, containers_view, device_description_spec,
    first_text_spec, parse_browse,
    photos_view,
};
use crate::decimal::decimal;
use crate::discover::{discovery_hosts, discovery_hosts_spec, probe_accepts, probe_ok};
use crate::http::{HttpCall, HttpReply, get_call, headers_view, reply_view, soap_browse, browse_envelope, browse_headers, UA};
use crate::model::{Photo, PhotoView};
use crate::text::{chars_of, concat, lossy_utf8, string_of, utf8_lossy};
use crate::url::{host_of, host_of_spec};
use crate::xml::xml_document;

verus! {

/// The DLNA device-description port Sony cameras serve on.
pub const DEFAULT_DESC_PORT: u16 = 64321;

/// A validated, connected camera target.
#[derive(Debug)]
pub struct Camera {
    host: String,
    friendly_name: Option<String>,
    control_url: String,
    service_type: String,
}

pub struct CameraView {
    pub host: Seq<char>,
    pub friendly_name: Option<Seq<char>>,
    pub control_url: Seq<char>,
    pub service_type: Seq<char>,
}

impl View for Camera {
    type V = CameraView;

    closed spec fn view(&self) -> CameraView {
        CameraView {
            host: self.host@,
            friendly_name: match self.friendly_name {
                Some(n) => Some(n@),
                None => None,
            },
            control_url: self.control_url@,
            service_type: self.service_type@,
        }
    }
}

impl Clone for Camera {
    fn clone(&self) -> (r: Self)
        ensures
            r@ == self@,
    {
        Camera {
            host: self.host.clone(),
            friendly_name: match &self.friendly_name {
                Some(n) => Some(n.clone()),
                None => None,
            },
            control_url: self.control_url.clone(),
            service_type: self.service_type.clone(),
        }
    }
}

/// `http://{host}:64321/DmsDesc.xml`.
pub open spec fn desc_url_spec(host: Seq<char>) -> Seq<char> {
    "http://"@ + host + ":"@ + decimal(DEFAULT_DESC_PORT as nat) + "/DmsDesc.xml"@
}

/// The camera as a device description at `desc_url` describes it.
pub open spec fn camera_spec(desc_url: Seq<char>, nodes: Seq<crate::xml::XmlNodeView>) -> Result<CameraView, Seq<char>> {
    match device_description_spec(nodes, desc_url) {
        Err(e) => Err(e),
        Ok((ctrl, st)) => Ok(
            CameraView {
                host: host_of_spec(desc_url),
                friendly_name: first_text_spec(nodes, "friendlyName"@),
                control_url: ctrl,
                service_type: st,
            },
        ),
    }
}

pub open spec fn camera_result_view(r: Result<Camera, String>) -> Result<CameraView, Seq<char>> {
    match r {
        Ok(c) => Ok(c@),
        Err(e) => Err(e@),
    }
}

impl Camera {
    /// The description URL of a camera at `host`.
    pub fn desc_url(host: &str) -> (r: String)
        ensures
            r@ == desc_url_spec(host@),
    {
        let u = concat(
            &concat(&concat(&chars_of("http://"), &chars_of(host)), &chars_of(":")),
            &crate::decimal::decimal_chars(DEFAULT_DESC_PORT as u64),
        );
        string_of(&concat(&u, &chars_of("/DmsDesc.xml")))
    }

    /// Connecting to an explicit host starts with this `GET` of its device
    /// description; `from_desc_url` then validates the answer.
    pub fn connect(host: &str) -> (r: HttpCall)
        ensures
            r.method@ == "GET"@,
            r.url@ == desc_url_spec(host@),
            headers_view(r.headers@) == seq![("User-Agent"@, UA@)],
            r.body is None,
    {
        get_call(Camera::desc_url(host).as_str())
    }

    /// The camera whose description, fetched from `desc_url`, is `fetched`
    /// (body, content type): it must name a ContentDirectory service.
    pub fn from_desc_url(desc_url: &str, fetched: Result<(Vec<u8>, String), String>) -> (r: Result<Camera, String>)
        ensures
            match fetched {
                Err(e) => r matches Err(m) && m == e,
                Ok((bytes, _)) => match xml_document(lossy_utf8(bytes@)) {
                    None => r is Err,
                    Some(nodes) => camera_result_view(r) == camera_spec(desc_url@, nodes),
                },
            },
    {
        let (bytes, _) = match fetched {
            Ok(f) => f,
            Err(e) => return Err(e),
        };
        let xml = utf8_lossy(bytes.as_slice());
        let nodes = crate::xml::parse_xml(xml.as_str())?;
        Camera::from_description(desc_url, &nodes)
    }

    /// The camera that a parsed device description, fetched from
    /// `desc_url`, describes: it must name a ContentDirectory service.
    pub fn from_description(desc_url: &str, nodes: &Vec<crate::xml::XmlNode>) -> (r: Result<Camera, String>)
        ensures
            camera_result_view(r) == camera_spec(desc_url@, crate::xml::nodes_view(nodes@)),
    {
        let (control_url, service_type) = crate::browse::device_description_from(nodes, desc_url)?;
        Ok(Camera {
            host: host_of(desc_url),
            friendly_name: crate::browse::friendly_name_from(nodes),
            control_url,
            service_type,
        })
    }

    /// The host this camera was reached at (e.g. "10.0.0.1").
    pub fn host(&self) -> (r: &str)
        ensures
            r@ == self@.host,
    {
        self.host.as_str()
    }

    /// The camera's UPnP `friendlyName` (e.g. "ILCE-6000"), if it advertised one.
    pub fn friendly_name(&self) -> (r: Option<&str>)
        ensures
            match self@.friendly_name {
                Some(n) => r matches Some(s) && s@ == n,
                None => r is None,
            },
    {
        match &self.friendly_name {
            Some(n) => Some(n.as_str()),
            None => None,
        }
    }

    /// A human label for the camera: its friendly name, else the host.
    pub fn label(&self) -> (r: &str)
        ensures
            r@ == match self@.friendly_name {
                Some(n) => n,
                None => self@.host,
            },
    {
        match &self.friendly_name {
            Some(n) => n.as_str(),
            None => self.host.as_str(),
        }
    }

    /// The `Browse` of one page `[start, start+count)` of a container's
    /// children: the building block the pager walks. `"0"` is the root.
    pub fn browse_children(&self, container_id: &str, start: usize, count: usize) -> (r: HttpCall)
        ensures
            r.method@ == "POST"@,
            r.url@ == self@.control_url,
            headers_view(r.headers@) == browse_headers(self@.service_type),
            r.body matches Some(b) && b@ == vstd::utf8::encode_utf8(
                browse_envelope(self@.service_type, container_id@, start as nat, count as nat),
            ),
    {
        soap_browse(self.control_url.as_str(), self.service_type.as_str(), container_id, start, count)
    }

    /// The `GET` of one of a photo's camera media URLs.
    pub fn fetch(&self, media_url: &str) -> (r: HttpCall)
        ensures
            r.method@ == "GET"@,
            r.url@ == media_url@,
            headers_view(r.headers@) == seq![("User-Agent"@, UA@)],
            r.body is None,
    {
        get_call(media_url)
    }

    /// Enumerating every photo: a crawl from the root container.
    pub fn list(&self) -> (r: Crawl)
        ensures
            r@ == (CrawlView {
                control_url: self@.control_url,
                service_type: self@.service_type,
                photos: Seq::empty(),
                seen: Seq::empty(),
                queue: seq!["0"@],
                paging: None,
            }),
    {
        let mut queue: Vec<String> = Vec::new();
        queue.push("0".to_owned());
        let r = Crawl {
            control_url: self.control_url.clone(),
            service_type: self.service_type.clone(),
            photos: Vec::new(),
            seen: Vec::new(),
            queue,
            paging: None,
        };
        proof {
            assert(photos_view(r.photos@) =~= Seq::<PhotoView>::empty());
            assert(crate::discover::strings_view(r.seen@) =~= Seq::<Seq<char>>::empty());
            assert(crate::discover::strings_view(r.queue@) =~= seq!["0"@]);
        }
        r
    }
}

/// A depth-first crawl of the container tree that collects every photo,
/// browsing each container once, page by page until it is drained.
pub struct Crawl {
    control_url: String,
    service_type: String,
    photos: Vec<Photo>,
    seen: Vec<String>,
    queue: Vec<String>,
    /// The container whose page was last asked for, and where that page
    /// started.
    paging: Option<(String, usize)>,
}

#[verifier::ext_equal]
pub struct CrawlView {
    pub control_url: Seq<char>,
    pub service_type: Seq<char>,
    pub photos: Seq<PhotoView>,
    pub seen: Seq<Seq<char>>,
    pub queue: Seq<Seq<char>>,
    pub paging: Option<(Seq<char>, usize)>,
}

impl View for Crawl {
    type V = CrawlView;

    closed spec fn view(&self) -> CrawlView {
        CrawlView {
            control_url: self.control_url@,
            service_type: self.service_type@,
            photos: photos_view(self.photos@),
            seen: crate::discover::strings_view(self.seen@),
            queue: crate::discover::strings_view(self.queue@),
            paging: match self.paging {
                Some((id, start)) => Some((id@, start)),
                None => None,
            },
        }
    }
}

/// What the crawl asks for next.
#[derive(Debug)]
pub enum CrawlStep {
    /// Perform this `Browse` (a page of the container being drained), then
    /// `resume`.
    Browse(HttpCall),
    /// Every photo, in the order found; or the failure that ended the crawl.
    Done(Result<Vec<Photo>, String>),
}

/// The next container to browse: the newest queued one not seen yet. The
/// queue's seen entries on top are dropped.
pub open spec fn next_unseen(seen: Seq<Seq<char>>, queue: Seq<Seq<char>>) -> (Option<Seq<char>>, Seq<Seq<char>>)
    decreases queue.len(),
{
    if queue.len() == 0 {
        (None, queue)
    } else if seen.contains(queue.last()) {
        next_unseen(seen, queue.drop_last())
    } else {
        (Some(queue.last()), queue.drop_last())
    }
}

/// The queue after a browse: each found container not seen yet, in order.
pub open spec fn enqueue(seen: Seq<Seq<char>>, queue: Seq<Seq<char>>, found: Seq<ContainerView>) -> Seq<Seq<char>>
    decreases found.len(),
{
    if found.len() == 0 {
        queue
    } else {
        let q = enqueue(seen, queue, found.drop_last());
        if seen.contains(found.last().id) {
            q
        } else {
            q.push(found.last().id)
        }
    }
}

/// The `Browse` of the page of `id`'s children that starts at `start`.
pub open spec fn crawl_browse(c: CrawlView, id: Seq<char>, start: usize, r: CrawlStep) -> bool {
    r matches CrawlStep::Browse(call) && call.method@ == "POST"@ && call.url@ == c.control_url && headers_view(
        call.headers@,
    ) == browse_headers(c.service_type) && (call.body matches Some(
        b,
    ) && b@ == vstd::utf8::encode_utf8(browse_envelope(c.service_type, id, start as nat, 50)))
}

/// What `step` does from `c`: the next unseen container is marked seen and
/// its first page (50 children) browsed; with none left, the crawl ends
/// with the photos found.
pub open spec fn step_post(c: CrawlView, c2: CrawlView, r: CrawlStep) -> bool {
    let (next, q) = next_unseen(c.seen, c.queue);
    match next {
        None => {
            &&& c2 == (CrawlView { queue: q, paging: None, ..c })
            &&& r matches CrawlStep::Done(Ok(p)) && photos_view(p@) == c.photos
        },
        Some(id) => {
            &&& c2 == (CrawlView { queue: q, seen: c.seen.push(id), paging: Some((id, 0)), ..c })
            &&& crawl_browse(c, id, 0, r)
        },
    }
}

/// Whether the container paged from `start` has children after the page
/// `bp`: the page returned some, and they end before the reported total.
pub open spec fn more_children(start: usize, bp: BrowsePageView) -> bool {
    bp.number_returned > 0 && start + bp.number_returned < bp.total_matches
}

/// What an answer `bp` to the crawl's last `Browse` does: its photos are
/// kept and its containers not seen yet are queued; then the same
/// container's next page is asked for while it has more children, and
/// otherwise the crawl steps on to the next container.
pub open spec fn resume_post(c: CrawlView, bp: BrowsePageView, c2: CrawlView, r: CrawlStep) -> bool {
    let c1 = CrawlView {
        photos: c.photos + bp.items,
        queue: enqueue(c.seen, c.queue, bp.containers),
        ..c
    };
    if c.paging matches Some((id, start)) && more_children(start, bp) {
        let (id, start) = c.paging.unwrap();
        let next = (start + bp.number_returned) as usize;
        &&& c2 == (CrawlView { paging: Some((id, next)), ..c1 })
        &&& crawl_browse(c, id, next, r)
    } else {
        step_post(CrawlView { paging: None, ..c1 }, c2, r)
    }
}

impl Crawl {
    /// Goes on with the crawl: browses the next container not yet seen, or
    /// ends with every photo found.
    pub fn step(&mut self) -> (r: CrawlStep)
        ensures
            step_post(old(self)@, final(self)@, r),
    {
        loop
            invariant
                next_unseen(self@.seen, self@.queue) == next_unseen(old(self)@.seen, old(self)@.queue),
                self@ == (CrawlView { queue: self@.queue, ..old(self)@ }),
            decreases self.queue@.len(),
        {
            let ghost q0 = crate::discover::strings_view(self.queue@);
            match self.queue.pop() {
                None => {
                    self.paging = None;
                    let photos = crate::model::clone_photos(self.photos.as_slice());
                    return CrawlStep::Done(Ok(photos));
                },
                Some(id) => {
                    assert(crate::discover::strings_view(self.queue@) =~= q0.drop_last());
                    let idc = chars_of(id.as_str());
                    if !seen_exec(&self.seen, &idc) {
                        let call = soap_browse(
                            self.control_url.as_str(),
                            self.service_type.as_str(),
                            id.as_str(),
                            0,
                            50,
                        );
                        let ghost s0 = crate::discover::strings_view(self.seen@);
                        self.paging = Some((id.clone(), 0));
                        self.seen.push(id);
                        assert(crate::discover::strings_view(self.seen@) =~= s0.push(idc@));
                        return CrawlStep::Browse(call);
                    }
                },
            }
        }
    }
}

impl Crawl {
    /// Hands the crawl the answer to its last `Browse`: its photos are kept
    /// and its containers not seen yet are queued, and the container is
    /// paged on until drained; a failed browse or an unreadable answer ends
    /// the crawl with that failure.
    pub fn resume(&mut self, raw: Result<Vec<u8>, String>) -> (r: CrawlStep)
        ensures
            match raw {
                Err(e) => r matches CrawlStep::Done(Err(m)) && m == e,
                Ok(b) => match crate::browse::parsed_browse(b@) {
                    None => r matches CrawlStep::Done(Err(_)),
                    Some(page) => resume_post(old(self)@, page, final(self)@, r),
                },
            },
    {
        match raw {
            Ok(b) => self.resume_page(parse_browse(b.as_slice())),
            Err(e) => CrawlStep::Done(Err(e)),
        }
    }

    /// Hands the crawl its last `Browse` read as a page (or the failure to
    /// get or read one): the page's photos are kept and its containers not
    /// seen yet are queued; while the container has children after this
    /// page its next page is asked for, else the crawl steps on; a failure
    /// ends the crawl with that very error.
    pub fn resume_page(&mut self, browsed: Result<BrowsePage, String>) -> (r: CrawlStep)
        ensures
            match browsed {
                Err(e) => r matches CrawlStep::Done(Err(m)) && m == e,
                Ok(page) => resume_post(old(self)@, page@, final(self)@, r),
            },
    {
        let page = match browsed {
            Ok(p) => p,
            Err(e) => return CrawlStep::Done(Err(e)),
        };
        let ghost pv = page@;
        let ghost c0 = self@;
        let BrowsePage { items, containers, number_returned, total_matches } = page;
        let mut items = items;
        self.photos.append(&mut items);
        let ghost s0 = crate::discover::strings_view(self.seen@);
        let ghost q0 = crate::discover::strings_view(self.queue@);
        let mut k: usize = 0;
        while k < containers.len()
            invariant
                0 <= k <= containers@.len(),
                s0 == crate::discover::strings_view(self.seen@),
                containers_view(containers@) == pv.containers,
                crate::discover::strings_view(self.queue@) == enqueue(s0, q0, pv.containers.take(k as int)),
                self@ == (CrawlView { photos: c0.photos + pv.items, queue: self@.queue, ..c0 }),
            decreases containers.len() - k,
        {
            let id = chars_of(containers[k].id.as_str());
            assert(pv.containers.take(k + 1).drop_last() =~= pv.containers.take(k as int));
            if !seen_exec(&self.seen, &id) {
                let ghost qq = crate::discover::strings_view(self.queue@);
                self.queue.push(string_of(&id));
                assert(crate::discover::strings_view(self.queue@) =~= qq.push(id@));
            }
            k = k + 1;
        }
        assert(pv.containers.take(containers@.len() as int) =~= pv.containers);
        let paging = self.paging.take();
        if let Some((id, start)) = paging {
            if number_returned > 0 && start < total_matches && number_returned < total_matches - start {
                let next = start + number_returned;
                let call = soap_browse(self.control_url.as_str(), self.service_type.as_str(), id.as_str(), next, 50);
                self.paging = Some((id, next));
                return CrawlStep::Browse(call);
            }
        }
        self.step()
    }
}

fn seen_exec(v: &Vec<String>, s: &[char]) -> (r: bool)
    ensures
        r == crate::discover::strings_view(v@).contains(s@),
{
    let ghost sv = crate::discover::strings_view(v@);
    let mut i: usize = 0;
    while i < v.len()
        invariant
            0 <= i <= v@.len(),
            sv == crate::discover::strings_view(v@),
            forall|k: int| 0 <= k < i ==> sv[k] != s@,
        decreases v.len() - i,
    {
        if crate::text::eq_chars(&chars_of(v[i].as_str()), s) {
            assert(sv[i as int] == s@);
            return true;
        }
        i = i + 1;
    }
    false
}

} // verus!

verus! {

/// The crawl browses each container at most once: the container it picks
/// next has not been browsed, so the list of browsed containers never holds
/// one twice.
pub proof fn law_crawl_browses_each_container_once(seen: Seq<Seq<char>>, queue: Seq<Seq<char>>)
    requires
        seen.no_duplicates(),
    ensures
        next_unseen(seen, queue).0 matches Some(id) ==> !seen.contains(id) && seen.push(id).no_duplicates(),
    decreases queue.len(),
{
    if queue.len() > 0 && seen.contains(queue.last()) {
        law_crawl_browses_each_container_once(seen, queue.drop_last());
    }
    if let Some(id) = next_unseen(seen, queue).0 {
        assert forall|a: int, b: int| 0 <= a < seen.push(id).len() && 0 <= b < seen.push(id).len() && a != b
            implies seen.push(id)[a] != seen.push(id)[b] by {
            if a < seen.len() && b < seen.len() {
            } else if a == seen.len() {
                assert(seen[b] != id);
            } else {
                assert(seen[a] != id);
            }
        }
    }
}

} // verus!

verus! {

/// Discovery by probing: the candidate hosts' descriptions are fetched in
/// turn until one answers as a Sony camera.
pub struct Discovery {
    hosts: Vec<String>,
    next: usize,
}

pub struct DiscoveryView {
    /// The hosts to probe, in order.
    pub hosts: Seq<Seq<char>>,
    /// How many of them have been probed.
    pub next: nat,
}

impl View for Discovery {
    type V = DiscoveryView;

    closed spec fn view(&self) -> DiscoveryView {
        DiscoveryView { hosts: crate::discover::strings_view(self.hosts@), next: self.next as nat }
    }
}

/// What discovery asks for next.
#[derive(Debug)]
pub enum DiscoverStep {
    /// Perform this `GET` of `host`'s description, then hand the reply to `resume`.
    Probe { host: String, call: HttpCall },
    /// The description URL of the camera found.
    Found(String),
    /// No candidate answered as a Sony camera.
    NotFound,
}

/// The next probe from `d`: the next host's description, or the end.
pub open spec fn probe_post(d: DiscoveryView, d2: DiscoveryView, r: DiscoverStep) -> bool {
    if d.next < d.hosts.len() {
        &&& d2 == DiscoveryView { next: d.next + 1, ..d }
        &&& r matches DiscoverStep::Probe { host, call } && host@ == d.hosts[d.next as int] && call.method@
            == "GET"@ && call.url@ == desc_url_spec(host@) && headers_view(call.headers@) == seq![
            ("User-Agent"@, UA@),
        ] && call.body is None
    } else {
        &&& d2 == d
        &&& r is NotFound
    }
}

impl Discovery {
    fn probe_next(&mut self) -> (r: DiscoverStep)
        requires
            old(self)@.next <= old(self)@.hosts.len(),
        ensures
            probe_post(old(self)@, final(self)@, r),
            final(self)@.next <= final(self)@.hosts.len(),
    {
        if self.next < self.hosts.len() {
            let host = self.hosts[self.next].clone();
            let call = get_call(Camera::desc_url(host.as_str()).as_str());
            self.next = self.next + 1;
            DiscoverStep::Probe { host, call }
        } else {
            DiscoverStep::NotFound
        }
    }

    /// Hands discovery the answer to its last probe: a Sony camera's answer
    /// ends it with that host's description URL; any other answer moves on
    /// to the next candidate.
    pub fn resume(&mut self, reply: &Result<HttpReply, String>) -> (r: DiscoverStep)
        requires
            0 < old(self)@.next <= old(self)@.hosts.len(),
        ensures
            if probe_ok(reply_view(*reply)) {
                &&& final(self)@ == old(self)@
                &&& r matches DiscoverStep::Found(u) && u@ == desc_url_spec(old(self)@.hosts[old(self)@.next - 1])
            } else {
                probe_post(old(self)@, final(self)@, r)
            },
            final(self)@.next <= final(self)@.hosts.len(),
    {
        if probe_accepts(reply) {
            DiscoverStep::Found(Camera::desc_url(self.hosts[self.next - 1].as_str()))
        } else {
            self.probe_next()
        }
    }
}

impl Camera {
    /// Auto-discovery: the Sony camera that answered SSDP at `ssdp_location`,
    /// if one did; else the gateways around our IPv4 address `local_ip` (when
    /// known) and the known fallbacks, each probed once, in turn.
    pub fn discover(ssdp_location: Option<String>, local_ip: Option<[u8; 4]>) -> (r: (Discovery, DiscoverStep))
        ensures
            r.0@.next <= r.0@.hosts.len(),
            match ssdp_location {
                Some(l) => r.1 matches DiscoverStep::Found(u) && u@ == l@,
                None => probe_post(
                    DiscoveryView {
                        hosts: discovery_hosts_spec(
                            match local_ip {
                                Some(o) => Some(o@),
                                None => None,
                            },
                        ),
                        next: 0,
                    },
                    r.0@,
                    r.1,
                ),
            },
    {
        match ssdp_location {
            Some(l) => (Discovery { hosts: Vec::new(), next: 0 }, DiscoverStep::Found(l)),
            None => {
                let mut d = Discovery { hosts: discovery_hosts(local_ip), next: 0 };
                let step = d.probe_next();
                (d, step)
            },
        }
    }
}

} // verus!

verus! {

/// The crawl's photo list only grows at its end: a step keeps it, an answer
/// appends the answer's photos after those found before, and a finished
/// crawl returns exactly the list found, so the crawl's result is the
/// concatenation of its pages' photos in the order they were browsed.
pub proof fn law_crawl_photos_grow_at_end(c: CrawlView, bp: BrowsePageView, c2: CrawlView, r: CrawlStep)
    ensures
        step_post(c, c2, r) ==> c2.photos == c.photos,
        step_post(c, c2, r) ==> (r matches CrawlStep::Done(Ok(p)) ==> photos_view(p@) == c.photos),
        resume_post(c, bp, c2, r) ==> c2.photos == c.photos + bp.items,
        resume_post(c, bp, c2, r) ==> (r matches CrawlStep::Done(Ok(p)) ==> photos_view(p@) == c.photos
            + bp.items),
{
}

} // verus!
