//! Finding the camera. SSDP multicast works on desktops; where it cannot
//! (iOS/iSH), candidate gateway addresses derived from the local IP (the
//! camera is the access point's gateway, almost always the subnet's ".1")
//! and known fallbacks are probed, accepting only a Sony device.

use vstd::prelude::*;
use crate::decimal::{decimal, decimal_chars};
use crate::http::{HttpReply, reply_view};
use crate::text::{
    ascii_lower, chars_of, concat, contains, contains_chars, eq_ignore_ascii_case, eq_ignore_ascii_case_exec, find,
    find_from, is_ws, trim_end, trim_start,
    find_chars, lemma_find_from_bounds, lossy_utf8, occurs_at, slice_chars, string_of, to_lowercase,
    trim, trim_chars, unicode_lowercase, utf8_lossy,
};

verus! {

/// The gateway ".1" addresses of the /24, /16 and /8 around `ip`.
pub open spec fn gateways_spec(o: Seq<u8>) -> Seq<Seq<char>> {
    seq![
        decimal(o[0] as nat) + "."@ + decimal(o[1] as nat) + "."@ + decimal(o[2] as nat) + ".1"@,
        decimal(o[0] as nat) + "."@ + decimal(o[1] as nat) + ".0.1"@,
        decimal(o[0] as nat) + ".0.0.1"@,
    ]
}

pub open spec fn strings_view(v: Seq<String>) -> Seq<Seq<char>> {
    v.map_values(|s: String| s@)
}

/// Guesses the access point's gateway (the camera) from our IPv4 octets.
pub fn candidate_gateways(ip: [u8; 4]) -> (r: Vec<String>)
    ensures
        strings_view(r@) == gateways_spec(ip@),
{
    let a = decimal_chars(ip[0] as u64);
    let b = decimal_chars(ip[1] as u64);
    let c = decimal_chars(ip[2] as u64);
    let dot = chars_of(".");
    let ab = concat(&concat(&concat(&a, &dot), &b), &dot);
    let g24 = concat(&concat(&ab, &c), &chars_of(".1"));
    let g16 = concat(&ab, &chars_of("0.1"));
    let g8 = concat(&a, &chars_of(".0.0.1"));
    let mut r: Vec<String> = Vec::new();
    r.push(string_of(&g24));
    r.push(string_of(&g16));
    r.push(string_of(&g8));
    proof {
        assert(ab@ + c@ + ".1"@ =~= decimal(ip@[0] as nat) + "."@ + decimal(ip@[1] as nat) + "."@ + decimal(ip@[2] as nat) + ".1"@);
        assert(ab@ + "0.1"@ =~= decimal(ip@[0] as nat) + "."@ + decimal(ip@[1] as nat) + ".0.1"@) by {
            assert("."@ + "0.1"@ =~= ".0.1"@) by {
                reveal_strlit(".");
                reveal_strlit("0.1");
                reveal_strlit(".0.1");
            }
        }
        assert(strings_view(r@) =~= gateways_spec(ip@));
    }
    r
}

/// The text looks like a Sony device's: its lowercase mentions `sony` or
/// `imagingdevice`.
pub open spec fn sony_text(t: Seq<char>) -> bool {
    let l = unicode_lowercase(t);
    contains(l, "sony"@) || contains(l, "imagingdevice"@)
}

/// Whether a reply body looks like a Sony camera's.
pub fn looks_like_sony(body: &[u8]) -> (r: bool)
    ensures
        r == sony_text(lossy_utf8(body@)),
{
    let s = to_lowercase(utf8_lossy(body).as_str());
    let l = chars_of(s.as_str());
    contains_chars(&l, &chars_of("sony")) || contains_chars(&l, &chars_of("imagingdevice"))
}

/// A probe answer that shows a Sony camera: 200, with a body that looks
/// like a Sony device's.
pub open spec fn probe_ok(reply: Result<(u16, Seq<u8>, Seq<char>), Seq<char>>) -> bool {
    match reply {
        Ok((status, body, _)) => status == 200 && sony_text(lossy_utf8(body)),
        Err(_) => false,
    }
}

/// A probe of a host's description is accepted only when it answers 200
/// with a body that looks like a Sony camera's, so that a router or NAS at
/// that address is not taken for one.
pub fn probe_accepts(reply: &Result<HttpReply, String>) -> (r: bool)
    ensures
        r == probe_ok(reply_view(*reply)),
{
    match reply {
        Ok(rep) => rep.status == 200 && looks_like_sony(rep.body.as_slice()),
        Err(_) => false,
    }
}

/// `s` without its later repeats, first occurrences in order.
pub open spec fn dedup(s: Seq<Seq<char>>) -> Seq<Seq<char>>
    decreases s.len(),
{
    if s.len() == 0 {
        Seq::empty()
    } else {
        let d = dedup(s.drop_last());
        if d.contains(s.last()) {
            d
        } else {
            d.push(s.last())
        }
    }
}

/// Tried last: this firmware's access point gateway, then Sony's documented one.
pub open spec fn fallback_hosts() -> Seq<Seq<char>> {
    seq!["10.0.0.1"@, "192.168.122.1"@]
}

/// The hosts to probe, in order, each once: the gateways around our IP (when
/// known), then the fallbacks.
pub open spec fn discovery_hosts_spec(local_ip: Option<Seq<u8>>) -> Seq<Seq<char>> {
    dedup(
        match local_ip {
            Some(o) => gateways_spec(o),
            None => Seq::empty(),
        } + fallback_hosts(),
    )
}

fn seen_in(v: &Vec<String>, s: &[char]) -> (r: bool)
    ensures
        r == strings_view(v@).contains(s@),
{
    let ghost sv = strings_view(v@);
    let mut i: usize = 0;
    while i < v.len()
        invariant
            0 <= i <= v@.len(),
            sv == strings_view(v@),
            forall|k: int| 0 <= k < i ==> sv[k] != s@,
        decreases v.len() - i,
    {
        if crate::text::eq_chars(&chars_of(v[i].as_str()), s) {
            assert(sv[i as int] == s@);
            return true;
        }
        i = i + 1;
    }
    false
}

/// The hosts to probe for a camera, in order and without repeats.
pub fn discovery_hosts(local_ip: Option<[u8; 4]>) -> (r: Vec<String>)
    ensures
        strings_view(r@) == discovery_hosts_spec(
            match local_ip {
                Some(o) => Some(o@),
                None => None,
            },
        ),
{
    let mut all: Vec<String> = match local_ip {
        Some(ip) => candidate_gateways(ip),
        None => Vec::new(),
    };
    all.push("10.0.0.1".to_owned());
    all.push("192.168.122.1".to_owned());
    let ghost av = strings_view(all@);
    assert(av =~= match local_ip {
        Some(o) => gateways_spec(o@),
        None => Seq::<Seq<char>>::empty(),
    } + fallback_hosts());
    let mut r: Vec<String> = Vec::new();
    let mut i: usize = 0;
    while i < all.len()
        invariant
            0 <= i <= all@.len(),
            av == strings_view(all@),
            strings_view(r@) == dedup(av.take(i as int)),
        decreases all.len() - i,
    {
        let h = chars_of(all[i].as_str());
        assert(av.take(i + 1).drop_last() =~= av.take(i as int));
        if !seen_in(&r, &h) {
            let ghost prev = strings_view(r@);
            r.push(string_of(&h));
            assert(strings_view(r@) =~= prev.push(h@));
        }
        i = i + 1;
    }
    assert(av.take(all@.len() as int) =~= av);
    r
}

/// The SSDP `M-SEARCH` for search target `st`.
pub open spec fn msearch_spec(st: Seq<char>) -> Seq<char> {
    "M-SEARCH * HTTP/1.1\r\nHOST: 239.255.255.250:1900\r\nMAN: \"ssdp:discover\"\r\nMX: 2\r\nST: "@ + st
        + "\r\n\r\n"@
}

pub fn msearch(st: &str) -> (r: String)
    ensures
        r@ == msearch_spec(st@),
{
    let m = concat(
        &concat(
            &chars_of("M-SEARCH * HTTP/1.1\r\nHOST: 239.255.255.250:1900\r\nMAN: \"ssdp:discover\"\r\nMX: 2\r\nST: "),
            &chars_of(st),
        ),
        &chars_of("\r\n\r\n"),
    );
    string_of(&m)
}

/// The `\r\n`-separated lines of `s` (`s.split("\r\n")`).
pub open spec fn crlf_lines(s: Seq<char>) -> Seq<Seq<char>>
    decreases s.len(),
{
    match find(s, "\r\n"@) {
        Some(i) => if 0 <= i && i + 2 <= s.len() {
            seq![s.take(i)] + crlf_lines(s.skip(i + 2))
        } else {
            seq![s]
        },
        None => seq![s],
    }
}

/// The `LOCATION` and `SERVER` header values among `lines[..n]` (trimmed; the
/// last of each wins; empty when absent).
pub open spec fn ssdp_fields(lines: Seq<Seq<char>>, n: int) -> (Seq<char>, Seq<char>)
    decreases n,
{
    if n <= 0 || n > lines.len() {
        (Seq::empty(), Seq::empty())
    } else {
        let prev = ssdp_fields(lines, n - 1);
        let line = lines[n - 1];
        match find(line, seq![':']) {
            Some(c) => {
                let k = trim(line.take(c));
                let v = trim(line.skip(c + 1));
                if eq_ignore_ascii_case(k, "location"@) {
                    (v, prev.1)
                } else if eq_ignore_ascii_case(k, "server"@) {
                    (prev.0, v)
                } else {
                    prev
                }
            },
            None => prev,
        }
    }
}

/// What an SSDP reply offers: its location, when it has one and its server
/// looks like a Sony camera (other DLNA servers answer too and are ignored).
pub open spec fn ssdp_location_spec(text: Seq<char>) -> Option<Seq<char>> {
    let l = crlf_lines(text);
    let (loc, server) = ssdp_fields(l, l.len() as int);
    if loc.len() > 0 && sony_text(lossy_utf8(vstd::utf8::encode_utf8(server))) {
        Some(loc)
    } else {
        None
    }
}

fn crlf_lines_exec(s: &[char]) -> (r: Vec<Vec<char>>)
    ensures
        r@.map_values(|l: Vec<char>| l@) == crlf_lines(s@),
{
    let mut r: Vec<Vec<char>> = Vec::new();
    let mut rest = slice_chars(s, 0, s.len());
    let pat = chars_of("\r\n");
    assert(rest@ =~= s@);
    assert(r@.map_values(|l: Vec<char>| l@) + crlf_lines(rest@) =~= crlf_lines(s@));
    loop
        invariant
            pat@ == "\r\n"@,
            r@.map_values(|l: Vec<char>| l@) + crlf_lines(rest@) == crlf_lines(s@),
        decreases rest@.len(),
    {
        match find_chars(&rest, &pat) {
            Some(i) => {
                proof {
                    lemma_find_from_bounds(rest@, pat@, 0);
                    assert(occurs_at(rest@, pat@, i as int));
                    reveal_strlit("\r\n");
                }
                let rl = rest.len();
                let line = slice_chars(&rest, 0, i);
                let next = slice_chars(&rest, i + 2, rl);
                let ghost lv = line@;
                let ghost prev = r@.map_values(|l: Vec<char>| l@);
                r.push(line);
                assert(r@.map_values(|l: Vec<char>| l@) =~= prev.push(lv));
                assert(prev.push(lv) + crlf_lines(next@) =~= prev + (seq![lv] + crlf_lines(next@)));
                rest = next;
            },
            None => {
                let ghost prev = r@.map_values(|l: Vec<char>| l@);
                let ghost rv = rest@;
                r.push(rest);
                assert(r@.map_values(|l: Vec<char>| l@) =~= prev + seq![rv]);
                return r;
            },
        }
    }
}

/// Reads one SSDP reply: the location of a Sony camera, if it is one.
pub fn ssdp_location(text: &str) -> (r: Option<String>)
    ensures
        match ssdp_location_spec(text@) {
            Some(l) => r matches Some(s) && s@ == l,
            None => r is None,
        },
{
    let lines = crlf_lines_exec(&chars_of(text));
    let ghost lv = lines@.map_values(|l: Vec<char>| l@);
    let loc_key = chars_of("location");
    let server_key = chars_of("server");
    let colon = vec![':'];
    assert(colon@ =~= seq![':']);
    let mut loc: Vec<char> = Vec::new();
    let mut server: Vec<char> = Vec::new();
    let mut i: usize = 0;
    while i < lines.len()
        invariant
            0 <= i <= lines@.len(),
            lv == lines@.map_values(|l: Vec<char>| l@),
            loc_key@ == "location"@,
            server_key@ == "server"@,
            colon@ == seq![':'],
            (loc@, server@) == ssdp_fields(lv, i as int),
        decreases lines.len() - i,
    {
        let line = &lines[i];
        match find_chars(line, &colon) {
            Some(c) => {
                proof {
                    lemma_find_from_bounds(line@, colon@, 0);
                    assert(occurs_at(line@, colon@, c as int));
                }
                let ll = line.len();
                let k = trim_chars(&slice_chars(line, 0, c));
                let v = trim_chars(&slice_chars(line, c + 1, ll));
                if eq_ignore_ascii_case_exec(&k, &loc_key) {
                    loc = v;
                } else if eq_ignore_ascii_case_exec(&k, &server_key) {
                    server = v;
                }
            },
            None => {},
        }
        i = i + 1;
    }
    let server_s = string_of(&server);
    if loc.len() > 0 && looks_like_sony(server_s.as_str().as_bytes()) {
        Some(string_of(&loc))
    } else {
        None
    }
}

} // verus!

verus! {

/// Each host is probed once, and every candidate is probed: the probe list
/// holds no host twice and holds each candidate.
pub proof fn law_dedup_keeps_each_once(s: Seq<Seq<char>>)
    ensures
        dedup(s).no_duplicates(),
        forall|h: Seq<char>| #[trigger] dedup(s).contains(h) <==> s.contains(h),
    decreases s.len(),
{
    if s.len() > 0 {
        let init = s.drop_last();
        let d = dedup(init);
        law_dedup_keeps_each_once(init);
        assert forall|h: Seq<char>| s.contains(h) <==> (init.contains(h) || h == s.last()) by {
            if s.contains(h) && h != s.last() {
                let j = choose|j: int| 0 <= j < s.len() && s[j] == h;
                assert(j < s.len() - 1);
                assert(init[j] == h);
            }
            if init.contains(h) {
                let j = choose|j: int| 0 <= j < init.len() && init[j] == h;
                assert(s[j] == h);
            }
            if h == s.last() {
                assert(s[s.len() - 1] == h);
            }
        }
        if !d.contains(s.last()) {
            let d2 = d.push(s.last());
            assert forall|a: int, b: int| 0 <= a < d2.len() && 0 <= b < d2.len() && a != b implies d2[a] != d2[b] by {
                if a < d.len() && b < d.len() {
                } else if a == d.len() {
                    assert(d[b] != s.last());
                } else {
                    assert(d[a] != s.last());
                }
            }
            assert forall|h: Seq<char>| d2.contains(h) <==> (d.contains(h) || h == s.last()) by {
                if d2.contains(h) && h != s.last() {
                    let j = choose|j: int| 0 <= j < d2.len() && d2[j] == h;
                    assert(d[j] == h);
                }
                if d.contains(h) {
                    let j = choose|j: int| 0 <= j < d.len() && d[j] == h;
                    assert(d2[j] == h);
                }
                if h == s.last() {
                    assert(d2[d.len() as int] == h);
                }
            }
        }
    }
}

} // verus!

verus! {

/// Whether a reply line is a header named `location` in any ASCII case.
pub open spec fn names_location(line: Seq<char>) -> bool {
    find(line, seq![':']) matches Some(c) && eq_ignore_ascii_case(trim(line.take(c)), "location"@)
}

proof fn lemma_find_first_char(s: Seq<char>, c: char, i: int, k: int)
    requires
        0 <= i <= k < s.len(),
        s[k] == c,
        forall|j: int| i <= j < k ==> s[j] != c,
    ensures
        find_from(s, seq![c], i) == Some(k),
    decreases k - i,
{
    if i < k {
        assert(!occurs_at(s, seq![c], i)) by {
            if occurs_at(s, seq![c], i) {
                assert(s.subrange(i, i + 1)[0] == s[i]);
            }
        }
        lemma_find_first_char(s, c, i + 1, k);
    } else {
        assert(s.subrange(k, k + 1) =~= seq![c]);
    }
}

/// A header line `key:v` whose key is `location` in any ASCII case splits
/// at the colon after the key, into the key itself and `v`.
proof fn lemma_location_line(key: Seq<char>, v: Seq<char>)
    requires
        eq_ignore_ascii_case(key, "location"@),
    ensures
        ({
            let line = key + seq![':'] + v;
            &&& find(line, seq![':']) == Some(key.len() as int)
            &&& trim(line.take(key.len() as int)) == key
            &&& line.skip(key.len() as int + 1) == v
            &&& names_location(line)
        }),
{
    reveal_strlit("location");
    let line = key + seq![':'] + v;
    let loc = "location"@;
    assert(loc.len() == 8);
    assert forall|i: int| 0 <= i < key.len() implies key[i] != ':' && !is_ws(key[i]) by {
        assert(ascii_lower(key[i]) == ascii_lower(loc[i]));
        assert(ascii_lower(loc[i]) == loc[i]);
    }
    assert forall|j: int| 0 <= j < key.len() implies line[j] != ':' by {
        assert(line[j] == key[j]);
    }
    assert(line[key.len() as int] == ':');
    lemma_find_first_char(line, ':', 0, key.len() as int);
    assert(line.take(key.len() as int) =~= key);
    assert(!is_ws(key[0]) && !is_ws(key.last()));
    assert(trim_start(key) == key);
    assert(trim_end(key) == key);
    assert(line.skip(key.len() as int + 1) =~= v);
}

proof fn lemma_location_kept(lines: Seq<Seq<char>>, j: int, n: int)
    requires
        0 <= j < n <= lines.len(),
        forall|m: int| j < m < n ==> !names_location(#[trigger] lines[m]),
    ensures
        ssdp_fields(lines, n).0 == ssdp_fields(lines, j + 1).0,
    decreases n,
{
    if n > j + 1 {
        lemma_location_kept(lines, j, n - 1);
        assert(!names_location(lines[n - 1]));
    }
}

/// SSDP header names are matched without regard to ASCII case: when the
/// last header line naming `location` (in any case) is `key:v`, the
/// location read from the lines is `v`, trimmed.
pub proof fn law_location_header_any_case(lines: Seq<Seq<char>>, j: int, key: Seq<char>, v: Seq<char>)
    requires
        0 <= j < lines.len(),
        lines[j] == key + seq![':'] + v,
        eq_ignore_ascii_case(key, "location"@),
        forall|m: int| j < m < lines.len() ==> !names_location(#[trigger] lines[m]),
    ensures
        ssdp_fields(lines, lines.len() as int).0 == trim(v),
{
    lemma_location_line(key, v);
    lemma_location_kept(lines, j, lines.len() as int);
}

/// A Sony camera's reply yields its location however the `location` header
/// is capitalised: when the reply's last line naming `location` is `key:v`
/// with a non-blank `v`, and its server looks like Sony's, the reply's
/// location is `v`, trimmed.
pub proof fn law_sony_reply_location_any_case(text: Seq<char>, j: int, key: Seq<char>, v: Seq<char>)
    requires
        0 <= j < crlf_lines(text).len(),
        crlf_lines(text)[j] == key + seq![':'] + v,
        eq_ignore_ascii_case(key, "location"@),
        forall|m: int| j < m < crlf_lines(text).len() ==> !names_location(#[trigger] crlf_lines(text)[m]),
        trim(v).len() > 0,
        sony_text(
            lossy_utf8(vstd::utf8::encode_utf8(ssdp_fields(crlf_lines(text), crlf_lines(text).len() as int).1)),
        ),
    ensures
        ssdp_location_spec(text) == Some(trim(v)),
{
    law_location_header_any_case(crlf_lines(text), j, key, v);
}

} // verus!

verus! {

/// Whether a reply line is a header named `server` in any ASCII case.
pub open spec fn names_server(line: Seq<char>) -> bool {
    find(line, seq![':']) matches Some(c) && eq_ignore_ascii_case(trim(line.take(c)), "server"@)
}

proof fn lemma_server_line(key: Seq<char>, v: Seq<char>)
    requires
        eq_ignore_ascii_case(key, "server"@),
    ensures
        ({
            let line = key + seq![':'] + v;
            &&& find(line, seq![':']) == Some(key.len() as int)
            &&& trim(line.take(key.len() as int)) == key
            &&& line.skip(key.len() as int + 1) == v
            &&& names_server(line)
            &&& !names_location(line)
        }),
{
    reveal_strlit("server");
    reveal_strlit("location");
    let line = key + seq![':'] + v;
    let srv = "server"@;
    assert(srv.len() == 6);
    assert forall|i: int| 0 <= i < key.len() implies key[i] != ':' && !is_ws(key[i]) by {
        assert(ascii_lower(key[i]) == ascii_lower(srv[i]));
        assert(ascii_lower(srv[i]) == srv[i]);
    }
    assert forall|j: int| 0 <= j < key.len() implies line[j] != ':' by {
        assert(line[j] == key[j]);
    }
    assert(line[key.len() as int] == ':');
    lemma_find_first_char(line, ':', 0, key.len() as int);
    assert(line.take(key.len() as int) =~= key);
    assert(!is_ws(key[0]) && !is_ws(key.last()));
    assert(trim_start(key) == key);
    assert(trim_end(key) == key);
    assert(line.skip(key.len() as int + 1) =~= v);
    assert(!eq_ignore_ascii_case(key, "location"@));
}

proof fn lemma_server_kept(lines: Seq<Seq<char>>, j: int, n: int)
    requires
        0 <= j < n <= lines.len(),
        forall|m: int| j < m < n ==> !names_server(#[trigger] lines[m]),
    ensures
        ssdp_fields(lines, n).1 == ssdp_fields(lines, j + 1).1,
    decreases n,
{
    if n > j + 1 {
        lemma_server_kept(lines, j, n - 1);
        assert(!names_server(lines[n - 1]));
    }
}

/// The `server` header is read in any ASCII case too: when the last line
/// naming `server` is `key:v`, the server read from the lines is `v`,
/// trimmed.
pub proof fn law_server_header_any_case(lines: Seq<Seq<char>>, j: int, key: Seq<char>, v: Seq<char>)
    requires
        0 <= j < lines.len(),
        lines[j] == key + seq![':'] + v,
        eq_ignore_ascii_case(key, "server"@),
        forall|m: int| j < m < lines.len() ==> !names_server(#[trigger] lines[m]),
    ensures
        ssdp_fields(lines, lines.len() as int).1 == trim(v),
{
    lemma_server_line(key, v);
    lemma_server_kept(lines, j, lines.len() as int);
}

} // verus!
