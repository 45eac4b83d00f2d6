//! UPnP device-description parsing and the DIDL-Lite answers of the
//! ContentDirectory `Browse` action.

use vstd::prelude::*;
use crate::decimal::{parse_unsigned, parse_usize};
use crate::didl::{full_spec, res_view, select_urls, thumb_spec};
use crate::model::{Photo, PhotoView};
use crate::text::{
    chars_of, find, find_chars, string_of, trim, trim_chars, utf8_lossy, lossy_utf8,
};
use crate::url::{resolve_url, resolve_url_spec};
use crate::xml::{
    attribute, attribute_exec, children, children_exec, first_named, first_named_exec, nodes_view,
    parse_xml, text_or_empty, trimmed_text, trimmed_text_exec, xml_document, XmlNode, XmlNodeView,
};

verus! {

/// The `serviceType` and `controlURL` a `<service>` element's children give
/// (trimmed; a later child of the same name wins; empty when absent).
pub open spec fn service_fields(nodes: Seq<XmlNodeView>, kids: Seq<int>) -> (Seq<char>, Seq<char>)
    decreases kids.len(),
{
    if kids.len() == 0 {
        (Seq::empty(), Seq::empty())
    } else {
        let prev = service_fields(nodes, kids.drop_last());
        let c = nodes[kids.last()];
        if c.name == "serviceType"@ {
            (trimmed_text(c), prev.1)
        } else if c.name == "controlURL"@ {
            (prev.0, trimmed_text(c))
        } else {
            prev
        }
    }
}

/// The service fields of node `i` when it is a ContentDirectory `<service>`
/// with a control URL.
pub open spec fn content_directory_at(nodes: Seq<XmlNodeView>, i: int) -> Option<(Seq<char>, Seq<char>)> {
    let f = service_fields(nodes, children(nodes, i));
    if nodes[i].name == "service"@ && find(f.0, "ContentDirectory"@) is Some && f.1.len() > 0 {
        Some(f)
    } else {
        None
    }
}

/// The first ContentDirectory service at or after node `i`.
pub open spec fn content_directory_from(nodes: Seq<XmlNodeView>, i: int) -> Option<(Seq<char>, Seq<char>)>
    decreases nodes.len() - i,
{
    if i < 0 || i >= nodes.len() {
        None
    } else if content_directory_at(nodes, i) is Some {
        content_directory_at(nodes, i)
    } else {
        content_directory_from(nodes, i + 1)
    }
}

/// `(absolute controlURL, serviceType)` of the description's first
/// ContentDirectory service, or the message that there is none.
pub open spec fn device_description_spec(nodes: Seq<XmlNodeView>, desc_url: Seq<char>) -> Result<
    (Seq<char>, Seq<char>),
    Seq<char>,
> {
    match content_directory_from(nodes, 0) {
        Some((st, ctrl)) => Ok((resolve_url_spec(desc_url, ctrl), st)),
        None => Err("no ContentDirectory service in device description"@),
    }
}

pub open spec fn pair_result_view(r: Result<(String, String), String>) -> Result<
    (Seq<char>, Seq<char>),
    Seq<char>,
> {
    match r {
        Ok((a, b)) => Ok((a@, b@)),
        Err(e) => Err(e@),
    }
}

fn service_fields_exec(nodes: &Vec<XmlNode>, s: usize) -> (r: (Vec<char>, Vec<char>))
    requires
        s < nodes@.len(),
    ensures
        (r.0@, r.1@) == service_fields(nodes_view(nodes@), children(nodes_view(nodes@), s as int)),
{
    let ghost nv = nodes_view(nodes@);
    let kids = children_exec(nodes, s);
    let ghost ks = kids@.map_values(|k: usize| k as int);
    let mut stype: Vec<char> = Vec::new();
    let mut ctrl: Vec<char> = Vec::new();
    let st_name = chars_of("serviceType");
    let ctrl_name = chars_of("controlURL");
    let mut i: usize = 0;
    while i < kids.len()
        invariant
            0 <= i <= kids.len(),
            nv == nodes_view(nodes@),
            ks == kids@.map_values(|k: usize| k as int),
            forall|k: int| 0 <= k < kids@.len() ==> #[trigger] kids@[k] < nodes@.len(),
            st_name@ == "serviceType"@,
            ctrl_name@ == "controlURL"@,
            (stype@, ctrl@) == service_fields(nv, ks.take(i as int)),
        decreases kids.len() - i,
    {
        let c = &nodes[kids[i]];
        let name = chars_of(c.name.as_str());
        assert(ks.take(i + 1).drop_last() =~= ks.take(i as int));
        assert(nv[ks.take(i + 1).last()] == c@);
        if crate::text::eq_chars(&name, &st_name) {
            stype = trimmed_text_exec(c);
        } else if crate::text::eq_chars(&name, &ctrl_name) {
            ctrl = trimmed_text_exec(c);
        }
        i = i + 1;
    }
    assert(ks.take(kids@.len() as int) =~= ks);
    (stype, ctrl)
}

/// Parses a device description, returning (absolute ContentDirectory
/// controlURL, serviceType).
pub fn parse_device_description(xml: &str, desc_url: &str) -> (r: Result<(String, String), String>)
    ensures
        xml_document(xml@) is None ==> r is Err,
        xml_document(xml@) matches Some(nodes) ==> pair_result_view(r) == device_description_spec(
            nodes,
            desc_url@,
        ),
{
    let nodes = parse_xml(xml)?;
    device_description_from(&nodes, desc_url)
}

/// (absolute ContentDirectory controlURL, serviceType) of a parsed device
/// description fetched from `desc_url`.
pub fn device_description_from(nodes: &Vec<XmlNode>, desc_url: &str) -> (r: Result<(String, String), String>)
    ensures
        pair_result_view(r) == device_description_spec(nodes_view(nodes@), desc_url@),
{
    let ghost nv = nodes_view(nodes@);
    let service = chars_of("service");
    let cd = chars_of("ContentDirectory");
    let mut i: usize = 0;
    while i < nodes.len()
        invariant
            0 <= i <= nodes.len(),
            nv == nodes_view(nodes@),
            service@ == "service"@,
            cd@ == "ContentDirectory"@,
            content_directory_from(nv, 0) == content_directory_from(nv, i as int),
        decreases nodes.len() - i,
    {
        if crate::text::eq_chars(&chars_of(nodes[i].name.as_str()), &service) {
            let (stype, ctrl) = service_fields_exec(nodes, i);
            assert(nv[i as int].name == "service"@);
            if find_chars(&stype, &cd).is_some() && ctrl.len() > 0 {
                let st = string_of(&stype);
                let c = string_of(&ctrl);
                return Ok((resolve_url(desc_url, c.as_str()), st));
            }
        }
        i = i + 1;
    }
    Err(string_of(&chars_of("no ContentDirectory service in device description")))
}

/// The trimmed text of the first node named `name`, when it is not empty.
pub open spec fn first_text_spec(nodes: Seq<XmlNodeView>, name: Seq<char>) -> Option<Seq<char>> {
    match first_named(nodes, name) {
        Some(k) => if trimmed_text(nodes[k]).len() > 0 {
            Some(trimmed_text(nodes[k]))
        } else {
            None
        },
        None => None,
    }
}

/// The device's `friendlyName` (e.g. "ILCE-6000"), if it advertises a
/// non-empty one.
pub fn parse_friendly_name(xml: &str) -> (r: Option<String>)
    ensures
        xml_document(xml@) is None ==> r is None,
        xml_document(xml@) matches Some(nodes) ==> match first_text_spec(nodes, "friendlyName"@) {
            Some(t) => r matches Some(s) && s@ == t,
            None => r is None,
        },
{
    match parse_xml(xml) {
        Ok(nodes) => friendly_name_from(&nodes),
        Err(_) => None,
    }
}

/// The `friendlyName` of a parsed device description, if it has a
/// non-empty one.
pub fn friendly_name_from(nodes: &Vec<XmlNode>) -> (r: Option<String>)
    ensures
        match first_text_spec(nodes_view(nodes@), "friendlyName"@) {
            Some(t) => r matches Some(s) && s@ == t,
            None => r is None,
        },
{
    match first_named_exec(nodes, &chars_of("friendlyName")) {
        Some(k) => {
            let t = trimmed_text_exec(&nodes[k]);
            if t.len() > 0 {
                Some(string_of(&t))
            } else {
                None
            }
        },
        None => None,
    }
}

} // verus!

verus! {

/// A child container found by a `Browse`.
#[derive(Debug)]
pub struct Container {
    pub id: String,
    pub title: String,
    /// The container's `childCount` attribute, when it carries a readable one.
    pub child_count: Option<usize>,
}

/// One page of a container's children.
#[derive(Debug)]
pub struct BrowsePage {
    pub items: Vec<Photo>,
    pub containers: Vec<Container>,
    pub number_returned: usize,
    pub total_matches: usize,
}

pub struct ContainerView {
    pub id: Seq<char>,
    pub title: Seq<char>,
    pub child_count: Option<usize>,
}

impl View for Container {
    type V = ContainerView;

    open spec fn view(&self) -> ContainerView {
        ContainerView { id: self.id@, title: self.title@, child_count: self.child_count }
    }
}

pub open spec fn photos_view(p: Seq<Photo>) -> Seq<PhotoView> {
    p.map_values(|x: Photo| x@)
}

pub open spec fn containers_view(c: Seq<Container>) -> Seq<ContainerView> {
    c.map_values(|x: Container| x@)
}

pub struct BrowsePageView {
    pub items: Seq<PhotoView>,
    pub containers: Seq<ContainerView>,
    pub number_returned: usize,
    pub total_matches: usize,
}

impl View for BrowsePage {
    type V = BrowsePageView;

    open spec fn view(&self) -> BrowsePageView {
        BrowsePageView {
            items: photos_view(self.items@),
            containers: containers_view(self.containers@),
            number_returned: self.number_returned,
            total_matches: self.total_matches,
        }
    }
}

/// A usize written in text, when it reads as one.
pub open spec fn usize_of(s: Seq<char>) -> Option<usize> {
    match parse_unsigned(s, usize::MAX as nat) {
        Some(v) => Some(v as usize),
        None => None,
    }
}

/// What an `<item>`'s element children give: the last `title`, the last
/// `date` (both trimmed), and each `res` with a non-empty URL as
/// `(protocolInfo, url)`.
pub open spec fn item_fields(nodes: Seq<XmlNodeView>, kids: Seq<int>) -> (
    Seq<char>,
    Seq<char>,
    Seq<(Seq<char>, Seq<char>)>,
)
    decreases kids.len(),
{
    if kids.len() == 0 {
        (Seq::empty(), Seq::empty(), Seq::empty())
    } else {
        let prev = item_fields(nodes, kids.drop_last());
        let c = nodes[kids.last()];
        if !c.is_element {
            prev
        } else if c.name == "title"@ {
            (trimmed_text(c), prev.1, prev.2)
        } else if c.name == "date"@ {
            (prev.0, trimmed_text(c), prev.2)
        } else if c.name == "res"@ && trimmed_text(c).len() > 0 {
            let proto = match attribute(c, "protocolInfo"@) {
                Some(p) => p,
                None => Seq::empty(),
            };
            (prev.0, prev.1, prev.2.push((proto, trimmed_text(c))))
        } else {
            prev
        }
    }
}

/// The photo an `<item>` node describes.
pub open spec fn item_spec(nodes: Seq<XmlNodeView>, k: int) -> PhotoView {
    let f = item_fields(nodes, children(nodes, k));
    PhotoView {
        id: match attribute(nodes[k], "id"@) {
            Some(i) => i,
            None => Seq::empty(),
        },
        name: f.0,
        date: f.1,
        thumb_url: thumb_spec(f.2),
        full_url: full_spec(f.2),
    }
}

/// The trimmed text of the last `title` element child (empty when absent).
pub open spec fn title_of(nodes: Seq<XmlNodeView>, k: int) -> Seq<char> {
    item_fields(nodes, children(nodes, k)).0
}

/// The photos and containers that the DIDL-Lite top-level entries `kids` list.
pub open spec fn didl_entries(nodes: Seq<XmlNodeView>, kids: Seq<int>) -> (
    Seq<PhotoView>,
    Seq<ContainerView>,
)
    decreases kids.len(),
{
    if kids.len() == 0 {
        (Seq::empty(), Seq::empty())
    } else {
        let prev = didl_entries(nodes, kids.drop_last());
        let k = kids.last();
        let n = nodes[k];
        if !n.is_element {
            prev
        } else if n.name == "container"@ {
            match attribute(n, "id"@) {
                Some(id) => (
                    prev.0,
                    prev.1.push(
                        ContainerView {
                            id,
                            title: title_of(nodes, k),
                            child_count: match attribute(n, "childCount"@) {
                                Some(c) => usize_of(c),
                                None => None,
                            },
                        },
                    ),
                ),
                None => prev,
            }
        } else if n.name == "item"@ {
            (prev.0.push(item_spec(nodes, k)), prev.1)
        } else {
            prev
        }
    }
}

/// The first element child of the document root at or after `i`.
pub open spec fn root_element_from(nodes: Seq<XmlNodeView>, i: int) -> Option<int>
    decreases nodes.len() - i,
{
    if i < 0 || i >= nodes.len() {
        None
    } else if nodes[i].is_element && nodes[i].parent == Some(0usize) {
        Some(i)
    } else {
        root_element_from(nodes, i + 1)
    }
}

/// The photos and containers a DIDL-Lite document lists at its top level.
pub open spec fn didl_spec(nodes: Seq<XmlNodeView>) -> (Seq<PhotoView>, Seq<ContainerView>) {
    match root_element_from(nodes, 0) {
        Some(r) => didl_entries(nodes, children(nodes, r)),
        None => (Seq::empty(), Seq::empty()),
    }
}

/// The text of the first node named `name` (empty when there is none).
pub open spec fn text_of(nodes: Seq<XmlNodeView>, name: Seq<char>) -> Seq<char> {
    match first_named(nodes, name) {
        Some(k) => text_or_empty(nodes[k]),
        None => Seq::empty(),
    }
}

/// A count field of the SOAP answer: its trimmed text as a number, else 0.
pub open spec fn count_field(nodes: Seq<XmlNodeView>, name: Seq<char>) -> usize {
    match usize_of(trim(text_of(nodes, name))) {
        Some(v) => v,
        None => 0,
    }
}

/// The DIDL-Lite text a `Browse` answer carries in its `Result`.
pub open spec fn result_text(soap: Seq<XmlNodeView>) -> Seq<char> {
    text_of(soap, "Result"@)
}

/// The page a parsed `Browse` answer and its parsed DIDL-Lite `Result` give.
pub open spec fn browse_page_spec(soap: Seq<XmlNodeView>, didl: Seq<XmlNodeView>) -> BrowsePageView {
    let e = didl_spec(didl);
    BrowsePageView {
        items: e.0,
        containers: e.1,
        number_returned: count_field(soap, "NumberReturned"@),
        total_matches: count_field(soap, "TotalMatches"@),
    }
}

/// The page a `Browse` answer's bytes give, or `None` when the answer, or
/// a non-blank `Result` in it, is not XML that roxmltree accepts.
pub open spec fn parsed_browse(raw: Seq<u8>) -> Option<BrowsePageView> {
    match xml_document(lossy_utf8(raw)) {
        None => None,
        Some(s) => {
            let result = result_text(s);
            if trim(result).len() == 0 {
                Some(browse_page_spec(s, Seq::empty()))
            } else {
                match xml_document(result) {
                    None => None,
                    Some(d) => Some(browse_page_spec(s, d)),
                }
            }
        },
    }
}

fn text_of_exec(nodes: &Vec<XmlNode>, name: &[char]) -> (r: Vec<char>)
    ensures
        r@ == text_of(nodes_view(nodes@), name@),
{
    match first_named_exec(nodes, name) {
        Some(k) => match &nodes[k].text {
            Some(t) => chars_of(t.as_str()),
            None => Vec::new(),
        },
        None => Vec::new(),
    }
}

fn count_field_exec(nodes: &Vec<XmlNode>, name: &[char]) -> (r: usize)
    ensures
        r == count_field(nodes_view(nodes@), name@),
{
    match parse_usize(&trim_chars(&text_of_exec(nodes, name))) {
        Some(v) => v,
        None => 0,
    }
}

fn item_fields_exec(nodes: &Vec<XmlNode>, k: usize) -> (r: (Vec<char>, Vec<char>, Vec<(String, String)>))
    requires
        k < nodes@.len(),
    ensures
        (r.0@, r.1@, res_view(r.2@)) == item_fields(nodes_view(nodes@), children(nodes_view(nodes@), k as int)),
{
    let ghost nv = nodes_view(nodes@);
    let kids = children_exec(nodes, k);
    let ghost ks = kids@.map_values(|k: usize| k as int);
    let mut name: Vec<char> = Vec::new();
    let mut date: Vec<char> = Vec::new();
    let mut res: Vec<(String, String)> = Vec::new();
    let title_n = chars_of("title");
    let date_n = chars_of("date");
    let res_n = chars_of("res");
    let proto_n = chars_of("protocolInfo");
    let mut i: usize = 0;
    while i < kids.len()
        invariant
            0 <= i <= kids.len(),
            nv == nodes_view(nodes@),
            ks == kids@.map_values(|k: usize| k as int),
            forall|j: int| 0 <= j < kids@.len() ==> #[trigger] kids@[j] < nodes@.len(),
            title_n@ == "title"@,
            date_n@ == "date"@,
            res_n@ == "res"@,
            proto_n@ == "protocolInfo"@,
            (name@, date@, res_view(res@)) == item_fields(nv, ks.take(i as int)),
        decreases kids.len() - i,
    {
        let c = &nodes[kids[i]];
        assert(ks.take(i + 1).drop_last() =~= ks.take(i as int));
        assert(nv[ks.take(i + 1).last()] == c@);
        if c.is_element {
            let cname = chars_of(c.name.as_str());
            if crate::text::eq_chars(&cname, &title_n) {
                name = trimmed_text_exec(c);
            } else if crate::text::eq_chars(&cname, &date_n) {
                date = trimmed_text_exec(c);
            } else if crate::text::eq_chars(&cname, &res_n) {
                let url = trimmed_text_exec(c);
                if url.len() > 0 {
                    let proto = match attribute_exec(c, &proto_n) {
                        Some(p) => p,
                        None => Vec::new(),
                    };
                    let ghost before = res_view(res@);
                    res.push((string_of(&proto), string_of(&url)));
                    assert(res_view(res@) =~= before.push((proto@, url@)));
                }
            }
        }
        i = i + 1;
    }
    assert(ks.take(kids@.len() as int) =~= ks);
    (name, date, res)
}

fn item_exec(nodes: &Vec<XmlNode>, k: usize) -> (r: Photo)
    requires
        k < nodes@.len(),
    ensures
        r@ == item_spec(nodes_view(nodes@), k as int),
{
    let id = match attribute_exec(&nodes[k], &chars_of("id")) {
        Some(i) => string_of(&i),
        None => String::new(),
    };
    let (name, date, res) = item_fields_exec(nodes, k);
    let (thumb, full) = select_urls(&res);
    Photo { id, name: string_of(&name), date: string_of(&date), thumb_url: thumb, full_url: full }
}

fn root_element_exec(nodes: &Vec<XmlNode>) -> (r: Option<usize>)
    ensures
        r matches Some(k) ==> root_element_from(nodes_view(nodes@), 0) == Some(k as int) && k
            < nodes@.len(),
        r is None ==> root_element_from(nodes_view(nodes@), 0) is None,
{
    let ghost nv = nodes_view(nodes@);
    let mut i: usize = 0;
    while i < nodes.len()
        invariant
            0 <= i <= nodes.len(),
            nv == nodes_view(nodes@),
            root_element_from(nv, 0) == root_element_from(nv, i as int),
        decreases nodes.len() - i,
    {
        if nodes[i].is_element && nodes[i].parent == Some(0usize) {
            return Some(i);
        }
        i = i + 1;
    }
    None
}

fn didl_exec(nodes: &Vec<XmlNode>) -> (r: (Vec<Photo>, Vec<Container>))
    ensures
        (photos_view(r.0@), containers_view(r.1@)) == didl_spec(nodes_view(nodes@)),
{
    let ghost nv = nodes_view(nodes@);
    let mut items: Vec<Photo> = Vec::new();
    let mut containers: Vec<Container> = Vec::new();
    let root = match root_element_exec(nodes) {
        Some(r) => r,
        None => {
            assert(photos_view(items@) =~= Seq::<PhotoView>::empty());
            assert(containers_view(containers@) =~= Seq::<ContainerView>::empty());
            return (items, containers);
        },
    };
    let kids = children_exec(nodes, root);
    let ghost ks = kids@.map_values(|k: usize| k as int);
    let container_n = chars_of("container");
    let item_n = chars_of("item");
    let id_n = chars_of("id");
    let cc_n = chars_of("childCount");
    let mut i: usize = 0;
    while i < kids.len()
        invariant
            0 <= i <= kids.len(),
            nv == nodes_view(nodes@),
            ks == kids@.map_values(|k: usize| k as int),
            forall|j: int| 0 <= j < kids@.len() ==> #[trigger] kids@[j] < nodes@.len(),
            container_n@ == "container"@,
            item_n@ == "item"@,
            id_n@ == "id"@,
            cc_n@ == "childCount"@,
            (photos_view(items@), containers_view(containers@)) == didl_entries(nv, ks.take(i as int)),
        decreases kids.len() - i,
    {
        let k = kids[i];
        let n = &nodes[k];
        assert(ks.take(i + 1).drop_last() =~= ks.take(i as int));
        assert(ks.take(i + 1).last() == k as int);
        assert(nv[k as int] == n@);
        if n.is_element {
            let name = chars_of(n.name.as_str());
            if crate::text::eq_chars(&name, &container_n) {
                match attribute_exec(n, &id_n) {
                    Some(id) => {
                        let (title, _, _) = item_fields_exec(nodes, k);
                        let child_count = match attribute_exec(n, &cc_n) {
                            Some(c) => parse_usize(&c),
                            None => None,
                        };
                        let ghost before = containers_view(containers@);
                        containers.push(Container { id: string_of(&id), title: string_of(&title), child_count });
                        assert(containers_view(containers@) =~= before.push(containers@.last()@));
                    },
                    None => {},
                }
            } else if crate::text::eq_chars(&name, &item_n) {
                let p = item_exec(nodes, k);
                let ghost before = photos_view(items@);
                items.push(p);
                assert(photos_view(items@) =~= before.push(p@));
            }
        }
        i = i + 1;
    }
    assert(ks.take(kids@.len() as int) =~= ks);
    (items, containers)
}

/// The DIDL-Lite text that a parsed `Browse` answer carries in its `Result`.
pub fn browse_result(soap: &Vec<XmlNode>) -> (r: String)
    ensures
        r@ == result_text(nodes_view(soap@)),
{
    string_of(&text_of_exec(soap, &chars_of("Result")))
}

/// The page that a parsed `Browse` answer and its parsed DIDL-Lite
/// `Result` give: the answer's counts, and the photos and containers that
/// the DIDL-Lite lists at its top level.
pub fn browse_page_from(soap: &Vec<XmlNode>, didl: &Vec<XmlNode>) -> (r: BrowsePage)
    ensures
        r@ == browse_page_spec(nodes_view(soap@), nodes_view(didl@)),
{
    let number_returned = count_field_exec(soap, &chars_of("NumberReturned"));
    let total_matches = count_field_exec(soap, &chars_of("TotalMatches"));
    let (items, containers) = didl_exec(didl);
    BrowsePage { items, containers, number_returned, total_matches }
}

/// Parses one `Browse` SOAP answer: its counts and the photos and
/// containers that its DIDL-Lite `Result` lists. Fails when the answer, or
/// a non-blank `Result` in it, is not XML that roxmltree accepts.
pub fn parse_browse(soap_bytes: &[u8]) -> (r: Result<BrowsePage, String>)
    ensures
        match parsed_browse(soap_bytes@) {
            Some(v) => r matches Ok(p) && p@ == v,
            None => r is Err,
        },
{
    let soap = utf8_lossy(soap_bytes);
    let nodes = parse_xml(soap.as_str())?;
    let result = browse_result(&nodes);
    if trim_chars(&chars_of(result.as_str())).len() == 0 {
        let none: Vec<XmlNode> = Vec::new();
        assert(nodes_view(none@) =~= Seq::<XmlNodeView>::empty());
        return Ok(browse_page_from(&nodes, &none));
    }
    let didl = parse_xml(result.as_str())?;
    Ok(browse_page_from(&nodes, &didl))
}

} // verus!
