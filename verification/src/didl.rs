//! Choosing a photo's media URLs from its DIDL-Lite `<res>` entries by DLNA
//! profile (`DLNA.ORG_PN`), not by position.

use vstd::prelude::*;
use crate::text::{
    chars_of, find, find_chars, lemma_find_from_bounds, occurs_at, slice_chars, string_of,
};

verus! {

/// The index of the first `;` or `:` at or after `i` in `v`, or `v.len()`.
pub open spec fn delim_from(v: Seq<char>, i: int) -> int
    decreases v.len() - i,
{
    if i >= v.len() || i < 0 {
        v.len() as int
    } else if v[i] == ';' || v[i] == ':' {
        i
    } else {
        delim_from(v, i + 1)
    }
}

proof fn lemma_delim_from_bounds(v: Seq<char>, i: int)
    requires
        0 <= i <= v.len(),
    ensures
        i <= delim_from(v, i) <= v.len(),
    decreases v.len() - i,
{
    if i < v.len() && !(v[i] == ';' || v[i] == ':') {
        lemma_delim_from_bounds(v, i + 1);
    }
}

/// The `DLNA.ORG_PN` profile named in a `protocolInfo` string: the text after
/// `DLNA.ORG_PN=` up to the next `;` or `:`; empty when there is none.
pub open spec fn dlna_pn_spec(protocol_info: Seq<char>) -> Seq<char> {
    match find(protocol_info, "DLNA.ORG_PN="@) {
        Some(i) => {
            let v = protocol_info.skip(i + "DLNA.ORG_PN="@.len());
            v.take(delim_from(v, 0))
        },
        None => Seq::empty(),
    }
}

fn dlna_pn_chars(protocol_info: &[char]) -> (r: Vec<char>)
    ensures
        r@ == dlna_pn_spec(protocol_info@),
{
    let key = chars_of("DLNA.ORG_PN=");
    match find_chars(protocol_info, &key) {
        Some(i) => {
            proof {
                lemma_find_from_bounds(protocol_info@, key@, 0);
                assert(occurs_at(protocol_info@, key@, i as int));
            }
            let n = protocol_info.len();
            let v = slice_chars(protocol_info, i + key.len(), n);
            assert(v@ == protocol_info@.skip(i + key@.len()));
            let mut end: usize = 0;
            while end < v.len() && v[end] != ';' && v[end] != ':'
                invariant
                    0 <= end <= v@.len(),
                    delim_from(v@, 0) == delim_from(v@, end as int),
                decreases v.len() - end,
            {
                end = end + 1;
            }
            slice_chars(&v, 0, end)
        },
        None => Vec::new(),
    }
}

/// Extracts the `DLNA.ORG_PN` profile from a `protocolInfo` string (empty if absent).
pub fn dlna_pn(protocol_info: &str) -> (r: String)
    ensures
        r@ == dlna_pn_spec(protocol_info@),
{
    string_of(&dlna_pn_chars(&chars_of(protocol_info)))
}

/// `(protocolInfo, url)` pairs as text.
pub open spec fn res_view(res: Seq<(String, String)>) -> Seq<(Seq<char>, Seq<char>)> {
    res.map_values(|p: (String, String)| (p.0@, p.1@))
}

/// The URL of the first entry at or after `i` whose profile is `pn`.
pub open spec fn first_with_pn(res: Seq<(Seq<char>, Seq<char>)>, pn: Seq<char>, i: int) -> Option<
    Seq<char>,
>
    decreases res.len() - i,
{
    if i < 0 || i >= res.len() {
        None
    } else if dlna_pn_spec(res[i].0) == pn {
        Some(res[i].1)
    } else {
        first_with_pn(res, pn, i + 1)
    }
}

/// The URL of the last entry before `n` that names no profile (the
/// full-resolution original); empty when there is none.
pub open spec fn original_below(res: Seq<(Seq<char>, Seq<char>)>, n: int) -> Seq<char>
    decreases n,
{
    if n <= 0 || n > res.len() {
        Seq::empty()
    } else if dlna_pn_spec(res[n - 1].0).len() == 0 {
        res[n - 1].1
    } else {
        original_below(res, n - 1)
    }
}

/// The URL of the first profile among `a`, `b`, `c` (in that order) that some
/// entry carries; empty when none does.
pub open spec fn pick(res: Seq<(Seq<char>, Seq<char>)>, a: Seq<char>, b: Seq<char>, c: Seq<char>) -> Seq<char> {
    match first_with_pn(res, a, 0) {
        Some(u) => u,
        None => match first_with_pn(res, b, 0) {
            Some(u) => u,
            None => match first_with_pn(res, c, 0) {
                Some(u) => u,
                None => Seq::empty(),
            },
        },
    }
}

/// The thumbnail: `JPEG_TN`, else `JPEG_SM`, else `JPEG_LRG`, else the original.
pub open spec fn thumb_spec(res: Seq<(Seq<char>, Seq<char>)>) -> Seq<char> {
    let t = pick(res, "JPEG_TN"@, "JPEG_SM"@, "JPEG_LRG"@);
    if t.len() == 0 {
        original_below(res, res.len() as int)
    } else {
        t
    }
}

/// The full-resolution image: the original, else `JPEG_LRG`, `JPEG_SM`, `JPEG_TN`.
pub open spec fn full_spec(res: Seq<(Seq<char>, Seq<char>)>) -> Seq<char> {
    let o = original_below(res, res.len() as int);
    if o.len() > 0 {
        o
    } else {
        pick(res, "JPEG_LRG"@, "JPEG_SM"@, "JPEG_TN"@)
    }
}

/// The profile of each entry.
fn profiles(res: &[(String, String)]) -> (r: Vec<Vec<char>>)
    ensures
        r@.len() == res@.len(),
        forall|i: int| 0 <= i < res@.len() ==> #[trigger] r@[i]@ == dlna_pn_spec(res@[i].0@),
{
    let mut r: Vec<Vec<char>> = Vec::new();
    let mut i: usize = 0;
    while i < res.len()
        invariant
            0 <= i <= res.len(),
            r@.len() == i,
            forall|k: int| 0 <= k < i ==> #[trigger] r@[k]@ == dlna_pn_spec(res@[k].0@),
        decreases res.len() - i,
    {
        r.push(dlna_pn_chars(&chars_of(res[i].0.as_str())));
        i = i + 1;
    }
    r
}

fn first_with_pn_exec(res: &[(String, String)], pns: &Vec<Vec<char>>, pn: &[char]) -> (r: Option<
    Vec<char>,
>)
    requires
        pns@.len() == res@.len(),
        forall|i: int| 0 <= i < res@.len() ==> #[trigger] pns@[i]@ == dlna_pn_spec(res@[i].0@),
    ensures
        r matches Some(u) ==> first_with_pn(res_view(res@), pn@, 0) == Some(u@),
        r is None ==> first_with_pn(res_view(res@), pn@, 0) is None,
{
    let ghost rv = res_view(res@);
    let mut i: usize = 0;
    while i < res.len()
        invariant
            0 <= i <= res.len(),
            rv == res_view(res@),
            pns@.len() == res@.len(),
            forall|k: int| 0 <= k < res@.len() ==> #[trigger] pns@[k]@ == dlna_pn_spec(res@[k].0@),
            first_with_pn(rv, pn@, 0) == first_with_pn(rv, pn@, i as int),
        decreases res.len() - i,
    {
        assert(rv[i as int] == (res@[i as int].0@, res@[i as int].1@));
        if crate::text::eq_chars(&pns[i], pn) {
            return Some(chars_of(res[i].1.as_str()));
        }
        i = i + 1;
    }
    None
}

fn original_exec(res: &[(String, String)], pns: &Vec<Vec<char>>) -> (r: Vec<char>)
    requires
        pns@.len() == res@.len(),
        forall|i: int| 0 <= i < res@.len() ==> #[trigger] pns@[i]@ == dlna_pn_spec(res@[i].0@),
    ensures
        r@ == original_below(res_view(res@), res@.len() as int),
{
    let ghost rv = res_view(res@);
    let mut n: usize = res.len();
    while n > 0
        invariant
            0 <= n <= res.len(),
            rv == res_view(res@),
            pns@.len() == res@.len(),
            forall|k: int| 0 <= k < res@.len() ==> #[trigger] pns@[k]@ == dlna_pn_spec(res@[k].0@),
            original_below(rv, res@.len() as int) == original_below(rv, n as int),
        decreases n,
    {
        assert(rv[n - 1] == (res@[n - 1].0@, res@[n - 1].1@));
        if pns[n - 1].len() == 0 {
            return chars_of(res[n - 1].1.as_str());
        }
        n = n - 1;
    }
    Vec::new()
}

fn pick_exec(
    res: &[(String, String)],
    pns: &Vec<Vec<char>>,
    a: &[char],
    b: &[char],
    c: &[char],
) -> (r: Vec<char>)
    requires
        pns@.len() == res@.len(),
        forall|i: int| 0 <= i < res@.len() ==> #[trigger] pns@[i]@ == dlna_pn_spec(res@[i].0@),
    ensures
        r@ == pick(res_view(res@), a@, b@, c@),
{
    match first_with_pn_exec(res, pns, a) {
        Some(u) => u,
        None => match first_with_pn_exec(res, pns, b) {
            Some(u) => u,
            None => match first_with_pn_exec(res, pns, c) {
                Some(u) => u,
                None => Vec::new(),
            },
        },
    }
}

/// Picks the thumbnail (JPEG_TN, falling back) and the full-resolution
/// original (the profile-less entry, falling back) from `(protocolInfo, url)`
/// pairs.
pub fn select_urls(res: &[(String, String)]) -> (r: (String, String))
    ensures
        r.0@ == thumb_spec(res_view(res@)),
        r.1@ == full_spec(res_view(res@)),
{
    let pns = profiles(res);
    let original = original_exec(res, &pns);
    let t = pick_exec(res, &pns, &chars_of("JPEG_TN"), &chars_of("JPEG_SM"), &chars_of("JPEG_LRG"));
    let thumb = if t.len() == 0 {
        string_of(&original)
    } else {
        string_of(&t)
    };
    let full = if original.len() > 0 {
        string_of(&original)
    } else {
        string_of(
            &pick_exec(res, &pns, &chars_of("JPEG_LRG"), &chars_of("JPEG_SM"), &chars_of("JPEG_TN")),
        )
    };
    proof {
        assert(res_view(res@).len() == res@.len());
    }
    (thumb, full)
}

} // verus!

verus! {

proof fn lemma_first_with_pn_at(res: Seq<(Seq<char>, Seq<char>)>, pn: Seq<char>, i: int, k: int)
    requires
        0 <= i <= k < res.len(),
        dlna_pn_spec(res[k].0) == pn,
        forall|j: int| i <= j < k ==> dlna_pn_spec(#[trigger] res[j].0) != pn,
    ensures
        first_with_pn(res, pn, i) == Some(res[k].1),
    decreases k - i,
{
    if i < k {
        lemma_first_with_pn_at(res, pn, i + 1, k);
    }
}

proof fn lemma_original_below_at(res: Seq<(Seq<char>, Seq<char>)>, n: int, k: int)
    requires
        0 <= k < n <= res.len(),
        dlna_pn_spec(res[k].0).len() == 0,
        forall|j: int| k < j < n ==> dlna_pn_spec(#[trigger] res[j].0).len() != 0,
    ensures
        original_below(res, n) == res[k].1,
    decreases n - k,
{
    if n - 1 > k {
        lemma_original_below_at(res, n - 1, k);
    }
}

/// The thumbnail is the first `JPEG_TN` entry's URL whenever some entry
/// names that profile with a URL: a smaller rendition never wins over it.
pub proof fn law_thumbnail_prefers_jpeg_tn(res: Seq<(Seq<char>, Seq<char>)>, k: int)
    requires
        0 <= k < res.len(),
        dlna_pn_spec(res[k].0) == "JPEG_TN"@,
        forall|j: int| 0 <= j < k ==> dlna_pn_spec(#[trigger] res[j].0) != "JPEG_TN"@,
        res[k].1.len() > 0,
    ensures
        thumb_spec(res) == res[k].1,
{
    lemma_first_with_pn_at(res, "JPEG_TN"@, 0, k);
}

/// The full-size image is the last entry naming no profile (the original),
/// whenever it has a URL, whatever renditions the other entries offer.
pub proof fn law_full_prefers_original(res: Seq<(Seq<char>, Seq<char>)>, k: int)
    requires
        0 <= k < res.len(),
        dlna_pn_spec(res[k].0).len() == 0,
        forall|j: int| k < j < res.len() ==> dlna_pn_spec(#[trigger] res[j].0).len() != 0,
        res[k].1.len() > 0,
    ensures
        full_spec(res) == res[k].1,
{
    lemma_original_below_at(res, res.len() as int, k);
}

} // verus!
