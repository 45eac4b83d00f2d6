//! Mock photos for UI work without a camera: `n` synthetic photos drawn as
//! gradient SVG placeholders, or photos backed by a directory's image files.

use vstd::prelude::*;
use crate::browse::photos_view;
use crate::decimal::{decimal, decimal_chars, padded, padded_chars, parse_unsigned, parse_usize};
use crate::model::{Photo, PhotoView, clone_photos};
use crate::pager::Page;
use crate::text::{
    ascii_lower, chars_of, concat, eq_chars, rfind, rfind_chars, lemma_rfind_bounds, slice_chars,
    string_of,
};

verus! {

/// Reads the wall clock: `SystemTime::now()` measured from `UNIX_EPOCH` in
/// nanoseconds, `None` when the clock is set before the epoch. Nothing is
/// claimed of the value: it is the time.
#[verifier::external_body]
pub(crate) fn wall_clock_nanos() -> (r: Option<u128>) {
    std::time::SystemTime::now().duration_since(std::time::UNIX_EPOCH).ok().map(|d| d.as_nanos())
}

/// One xorshift64 step.
pub open spec fn xorshift(x: u64) -> u64 {
    let a = x ^ (x << 13u64);
    let b = a ^ (a >> 7u64);
    b ^ (b << 17u64)
}

/// A tiny deterministic xorshift PRNG.
pub struct Rng {
    pub state: u64,
}

/// The state a seed gives after four warm-up steps, so that close seeds diverge.
pub open spec fn seeded_state(seed: u64) -> u64 {
    xorshift(xorshift(xorshift(xorshift(seed | 1u64))))
}

/// The seed taken from the clock reading (nanoseconds truncated to 64 bits),
/// or a fixed odd constant when the clock reads before the epoch.
pub open spec fn clock_seed(nanos: Option<u128>) -> u64 {
    match nanos {
        Some(n) => n as u64,
        None => 0x9E37_79B9_7F4A_7C15u64,
    }
}

impl Rng {
    /// An Rng seeded from `seed` and warmed up.
    pub fn from_seed(seed: u64) -> (r: Rng)
        ensures
            r.state == seeded_state(seed),
    {
        let mut r = Rng { state: seed | 1 };
        let mut k: u32 = 0;
        while k < 4
            invariant
                0 <= k <= 4,
                k == 0 ==> r.state == seed | 1u64,
                k == 1 ==> r.state == xorshift(seed | 1u64),
                k == 2 ==> r.state == xorshift(xorshift(seed | 1u64)),
                k == 3 ==> r.state == xorshift(xorshift(xorshift(seed | 1u64))),
                k == 4 ==> r.state == seeded_state(seed),
            decreases 4 - k,
        {
            r.next_u64();
            k = k + 1;
        }
        r
    }

    /// An Rng seeded from the wall clock.
    pub fn seeded() -> (r: Rng)
        ensures
            exists|n: Option<u128>| r.state == seeded_state(clock_seed(n)),
    {
        let n = wall_clock_nanos();
        let seed: u64 = match n {
            Some(v) => v as u64,
            None => 0x9E37_79B9_7F4A_7C15u64,
        };
        let r = Rng::from_seed(seed);
        assert(r.state == seeded_state(clock_seed(n)));
        r
    }

    /// The next 64-bit value.
    pub fn next_u64(&mut self) -> (r: u64)
        ensures
            r == xorshift(old(self).state),
            final(self).state == r,
    {
        let mut x = self.state;
        x = x ^ (x << 13u64);
        x = x ^ (x >> 7u64);
        x = x ^ (x << 17u64);
        self.state = x;
        x
    }

    /// A value in `0..n`.
    pub fn below(&mut self, n: usize) -> (r: usize)
        requires
            n > 0,
        ensures
            final(self).state == xorshift(old(self).state),
            r == xorshift(old(self).state) % (n as u64),
            r < n,
    {
        let v = self.next_u64();
        (v % (n as u64)) as usize
    }
}

/// `{year:04}-{month:02}-{day:02}T{hh:02}:{mm:02}:00` for day `day_index`
/// (28-day months, 12-month years from 2026) and position `pos` in the day.
pub open spec fn date_for_spec(day_index: nat, pos: nat) -> Seq<char> {
    let day = 1 + day_index % 28;
    let month = 1 + (day_index / 28) % 12;
    let year = 2026 + day_index / (28 * 12);
    padded(year, 4) + "-"@ + padded(month, 2) + "-"@ + padded(day, 2) + "T"@ + padded((pos / 60) % 24, 2)
        + ":"@ + padded(pos % 60, 2) + ":00"@
}

/// A valid calendar date for `day_index`, with `pos` mapped to a distinct
/// ascending time within the day.
pub fn date_for(day_index: usize, pos: usize) -> (r: String)
    ensures
        r@ == date_for_spec(day_index as nat, pos as nat),
{
    let day = 1 + day_index % 28;
    let month = 1 + (day_index / 28) % 12;
    let year = 2026 + (day_index / (28 * 12)) as u64;
    let mut s = padded_chars(year, 4);
    s = concat(&s, &chars_of("-"));
    s = concat(&s, &padded_chars(month as u64, 2));
    s = concat(&s, &chars_of("-"));
    s = concat(&s, &padded_chars(day as u64, 2));
    s = concat(&s, &chars_of("T"));
    s = concat(&s, &padded_chars(((pos / 60) % 24) as u64, 2));
    s = concat(&s, &chars_of(":"));
    s = concat(&s, &padded_chars((pos % 60) as u64, 2));
    s = concat(&s, &chars_of(":00"));
    string_of(&s)
}

/// The largest day: 30% of `n` (rounded down), kept within 1..=100.
pub open spec fn max_day_spec(n: nat) -> nat {
    let m = (3 * n) / 10;
    if m < 1 {
        1
    } else if m > 100 {
        100
    } else {
        m
    }
}

pub open spec fn min_nat(a: nat, b: nat) -> nat {
    if a <= b {
        a
    } else {
        b
    }
}

/// The dates from `produced` on, with the generator at `state` and day
/// `day` next: each day takes a random size in `1..=max_day` (at most what
/// is left), and its photos get ascending times.
pub open spec fn dates_from(n: nat, max_day: nat, state: u64, day: nat, produced: nat) -> Seq<Seq<char>>
    decreases n - produced,
{
    if produced >= n || max_day == 0 {
        Seq::empty()
    } else {
        let next = xorshift(state);
        let size = min_nat(1 + (next as nat) % max_day, (n - produced) as nat);
        Seq::new(size, |pos: int| date_for_spec(day, pos as nat)) + dates_from(
            n,
            max_day,
            next,
            day + 1,
            produced + size,
        )
    }
}

/// The `n` dates a generator at `state` gives.
pub open spec fn dates_spec(n: nat, state: u64) -> Seq<Seq<char>> {
    dates_from(n, max_day_spec(n), state, 0, 0)
}

pub open spec fn strings_view(v: Seq<String>) -> Seq<Seq<char>> {
    v.map_values(|s: String| s@)
}

/// `n` ascending dates whose per-day group sizes are random and uneven,
/// sized to the total: the biggest day is up to 100 photos, but no more
/// than 30% of `n` for small sets.
pub fn generate_dates(n: usize, rng: &mut Rng) -> (r: Vec<String>)
    ensures
        strings_view(r@) == dates_spec(n as nat, old(rng).state),
        r@.len() == n,
{
    let ghost s0 = rng.state;
    let mut dates: Vec<String> = Vec::new();
    if n == 0 {
        assert(strings_view(dates@) =~= Seq::<Seq<char>>::empty());
        return dates;
    }
    let m: usize = if n >= 334 {
        100
    } else {
        let t = (3 * n) / 10;
        if t < 1 {
            1
        } else {
            t
        }
    };
    assert(m as nat == max_day_spec(n as nat));
    let mut day_index: usize = 0;
    let mut produced: usize = 0;
    while produced < n
        invariant
            produced <= n,
            m as nat == max_day_spec(n as nat),
            1 <= m <= 100,
            day_index <= produced,
            dates@.len() == produced,
            strings_view(dates@) + dates_from(n as nat, m as nat, rng.state, day_index as nat, produced as nat)
                == dates_spec(n as nat, s0),
        decreases n - produced,
    {
        let ghost st = rng.state;
        let b = rng.below(m);
        let size: usize = if 1 + b < n - produced {
            1 + b
        } else {
            n - produced
        };
        let ghost before = strings_view(dates@);
        let mut pos: usize = 0;
        while pos < size
            invariant
                0 <= pos <= size,
                produced + size <= n,
                dates@.len() == produced + pos,
                strings_view(dates@) == before + Seq::new(pos as nat, |p: int| date_for_spec(day_index as nat, p as nat)),
            decreases size - pos,
        {
            let d = date_for(day_index, pos);
            let ghost prev = strings_view(dates@);
            dates.push(d);
            assert(strings_view(dates@) =~= prev.push(d@));
            pos = pos + 1;
            assert(strings_view(dates@) =~= before + Seq::new(pos as nat, |p: int| date_for_spec(day_index as nat, p as nat)));
        }
        assert(size as nat == min_nat(1 + (xorshift(st) as nat) % (m as nat), (n - produced) as nat));
        assert(before + Seq::new(size as nat, |p: int| date_for_spec(day_index as nat, p as nat))
            + dates_from(n as nat, m as nat, rng.state, (day_index + 1) as nat, (produced + size) as nat)
            =~= before + dates_from(n as nat, m as nat, st, day_index as nat, produced as nat));
        produced = produced + size;
        day_index = day_index + 1;
    }
    assert(strings_view(dates@) + dates_from(n as nat, m as nat, rng.state, day_index as nat, produced as nat)
        =~= strings_view(dates@));
    dates
}

} // verus!

verus! {

/// Mock photos. For directory-backed photos, `files` maps id to on-disk
/// path; synthetic photos leave it empty and render gradient SVGs.
pub struct MockSource {
    photos: Vec<Photo>,
    files: Vec<(String, String)>,
}

pub struct MockView {
    pub photos: Seq<PhotoView>,
    pub files: Seq<(Seq<char>, Seq<char>)>,
}

impl View for MockSource {
    type V = MockView;

    closed spec fn view(&self) -> MockView {
        MockView { photos: photos_view(self.photos@), files: crate::didl::res_view(self.files@) }
    }
}

/// The mock photo with index `i`: `mock-{i:03}`, `DSC{7000+i:05}.JPG`.
pub open spec fn mock_photo_spec(i: nat, name: Seq<char>, date: Seq<char>) -> PhotoView {
    PhotoView {
        id: "mock-"@ + padded(i, 3),
        name,
        date,
        thumb_url: Seq::empty(),
        full_url: Seq::empty(),
    }
}

pub open spec fn synthetic_name(i: nat) -> Seq<char> {
    "DSC"@ + padded(7000 + i, 5) + ".JPG"@
}

/// `n` synthetic photos dated by a generator at `state`.
pub open spec fn synthetic_spec(n: nat, state: u64) -> Seq<PhotoView> {
    Seq::new(n, |i: int| mock_photo_spec(i as nat, synthetic_name(i as nat), dates_spec(n, state)[i]))
}

fn mock_id(i: usize) -> (r: String)
    ensures
        r@ == "mock-"@ + padded(i as nat, 3),
{
    string_of(&concat(&chars_of("mock-"), &padded_chars(i as u64, 3)))
}

/// Every photo file, by the photo index it serves.
pub open spec fn file_of(files: Seq<(Option<Seq<char>>, Seq<char>)>, i: nat) -> (Option<Seq<char>>, Seq<char>) {
    files[(i % files.len()) as int]
}

/// `count` photos (default: one per file) cycling through `files`, dated by
/// a generator at `state`.
pub open spec fn dir_photos_spec(files: Seq<(Option<Seq<char>>, Seq<char>)>, n: nat, state: u64) -> Seq<PhotoView> {
    Seq::new(
        n,
        |i: int|
            mock_photo_spec(
                i as nat,
                match file_of(files, i as nat).0 {
                    Some(name) => name,
                    None => "image"@,
                },
                dates_spec(n, state)[i],
            ),
    )
}

pub open spec fn named_files_view(v: Seq<(Option<String>, String)>) -> Seq<(Option<Seq<char>>, Seq<char>)> {
    v.map_values(
        |p: (Option<String>, String)|
            (
                match p.0 {
                    Some(n) => Some(n@),
                    None => None,
                },
                p.1@,
            ),
    )
}

impl MockSource {
    /// `n` synthetic photos with gradient SVG placeholders.
    pub fn new(n: usize) -> (r: MockSource)
        requires
            n <= usize::MAX - 7000,
        ensures
            exists|nanos: Option<u128>| r@.photos == synthetic_spec(n as nat, seeded_state(clock_seed(nanos))),
            r@.files.len() == 0,
    {
        let mut rng = Rng::seeded();
        let ghost st = rng.state;
        let dates = generate_dates(n, &mut rng);
        let mut photos: Vec<Photo> = Vec::new();
        let mut i: usize = 0;
        while i < n
            invariant
                0 <= i <= n,
                n <= usize::MAX - 7000,
                dates@.len() == n,
                strings_view(dates@) == dates_spec(n as nat, st),
                photos_view(photos@) == synthetic_spec(n as nat, st).take(i as int),
            decreases n - i,
        {
            let name = concat(&concat(&chars_of("DSC"), &padded_chars((7000 + i) as u64, 5)), &chars_of(".JPG"));
            let p = Photo {
                id: mock_id(i),
                name: string_of(&name),
                date: dates[i].clone(),
                thumb_url: String::new(),
                full_url: String::new(),
            };
            let ghost prev = photos_view(photos@);
            assert(strings_view(dates@)[i as int] == dates@[i as int]@);
            assert(p@ == synthetic_spec(n as nat, st)[i as int]);
            photos.push(p);
            assert(photos_view(photos@) =~= prev.push(p@));
            assert(photos_view(photos@) =~= synthetic_spec(n as nat, st).take(i + 1));
            i = i + 1;
        }
        assert(synthetic_spec(n as nat, st).take(n as int) =~= synthetic_spec(n as nat, st));
        let r = MockSource { photos, files: Vec::new() };
        assert(r@.files =~= Seq::<(Seq<char>, Seq<char>)>::empty());
        r
    }

    /// Photos backed by the image files of directory `dir`: `files` are its
    /// regular files as (file name when it is UTF-8, path). The image files
    /// among them, in path order, back `count` photos (default: one per
    /// file), cycling through the files; a photo is named after its file
    /// (`image` when the name is not UTF-8).
    pub fn from_dir(dir: &str, files: Vec<(Option<String>, String)>, count: Option<usize>) -> (r: Result<MockSource, String>)
        requires
            match count {
                Some(c) => c <= usize::MAX - 7000,
                None => files@.len() <= usize::MAX - 7000,
            },
        ensures
            ({
                let imgs = sort_by_path(image_files(named_files_view(files@)));
                &&& imgs.len() == 0 ==> (r matches Err(e) && e@ == "no image files in "@ + dir@)
                &&& imgs.len() > 0 ==> (r matches Ok(m) && ({
                    let n = match count {
                        Some(c) => c as nat,
                        None => imgs.len(),
                    };
                    &&& exists|nanos: Option<u128>| m@.photos == dir_photos_spec(imgs, n, seeded_state(clock_seed(nanos)))
                    &&& m@.files == Seq::new(n, |i: int| (m@.photos[i].id, file_of(imgs, i as nat).1))
                }))
            }),
    {
        let all = files;
        let files = sorted_images(&all);
        proof {
            lemma_image_files_len(named_files_view(all@));
            lemma_sort_len(image_files(named_files_view(all@)));
            assert(files@.len() == named_files_view(files@).len());
            assert(all@.len() == named_files_view(all@).len());
        }
        if files.len() == 0 {
            return Err(string_of(&concat(&chars_of("no image files in "), &chars_of(dir))));
        }
        let n = match count {
            Some(c) => c,
            None => files.len(),
        };
        let ghost fv = named_files_view(files@);
        let mut rng = Rng::seeded();
        let ghost st = rng.state;
        let dates = generate_dates(n, &mut rng);
        let mut photos: Vec<Photo> = Vec::new();
        let mut map: Vec<(String, String)> = Vec::new();
        let mut i: usize = 0;
        while i < n
            invariant
                0 <= i <= n,
                n <= usize::MAX - 7000,
                files@.len() > 0,
                fv == named_files_view(files@),
                dates@.len() == n,
                strings_view(dates@) == dates_spec(n as nat, st),
                photos_view(photos@) == dir_photos_spec(fv, n as nat, st).take(i as int),
                crate::didl::res_view(map@) == Seq::new(i as nat, |k: int| (photos_view(photos@)[k].id, file_of(fv, k as nat).1)),
            decreases n - i,
        {
            let f = &files[i % files.len()];
            let name = match &f.0 {
                Some(s) => s.clone(),
                None => "image".to_owned(),
            };
            let id = mock_id(i);
            let p = Photo {
                id: id.clone(),
                name,
                date: dates[i].clone(),
                thumb_url: String::new(),
                full_url: String::new(),
            };
            let ghost prevm = crate::didl::res_view(map@);
            let ghost prevp = photos_view(photos@);
            assert(strings_view(dates@)[i as int] == dates@[i as int]@);
            assert(fv[((i as nat) % files@.len()) as int] == (match f.0 { Some(s) => Some(s@), None => None }, f.1@));
            assert(p@ == dir_photos_spec(fv, n as nat, st)[i as int]);
            let ghost pid = p.id@;
            photos.push(p);
            assert(photos_view(photos@) =~= prevp.push(p@));
            map.push((id, f.1.clone()));
            assert(crate::didl::res_view(map@) =~= prevm.push((pid, f.1@)));
            assert(photos_view(photos@) =~= dir_photos_spec(fv, n as nat, st).take(i + 1));
            assert(crate::didl::res_view(map@) =~= Seq::new((i + 1) as nat, |k: int| (photos_view(photos@)[k].id, file_of(fv, k as nat).1)));
            i = i + 1;
        }
        assert(dir_photos_spec(fv, n as nat, st).take(n as int) =~= dir_photos_spec(fv, n as nat, st));
        Ok(MockSource { photos, files: map })
    }
}

} // verus!

verus! {

/// What serving a mock photo's image takes.
#[derive(Debug)]
pub enum MockFetch {
    /// Read this file; its type follows its name (`content_type_for`).
    File(String),
    /// These bytes, of this content type.
    Ready(Vec<u8>, String),
}

/// The text after the last `-` of `s` (all of `s` without one).
pub open spec fn after_last_dash(s: Seq<char>) -> Seq<char> {
    match rfind(s, seq!['-']) {
        Some(i) => s.skip(i + 1),
        None => s,
    }
}

/// The palette index of a photo id: the number after its last `-`, else 0.
pub open spec fn palette_index(id: Seq<char>) -> nat {
    match parse_unsigned(after_last_dash(id), usize::MAX as nat) {
        Some(v) => v,
        None => 0,
    }
}

/// The gradient colours for index `i`.
pub open spec fn palette_spec(i: nat) -> (Seq<char>, Seq<char>) {
    let k = i % 6;
    if k == 0 {
        ("#e74c3c"@, "#7d2820"@)
    } else if k == 1 {
        ("#e67e22"@, "#7a4212"@)
    } else if k == 2 {
        ("#f1c40f"@, "#7d6607"@)
    } else if k == 3 {
        ("#2ecc71"@, "#176b3a"@)
    } else if k == 4 {
        ("#3498db"@, "#1a5074"@)
    } else {
        ("#9b59b6"@, "#512f60"@)
    }
}

pub fn palette(i: usize) -> (r: (&'static str, &'static str))
    ensures
        (r.0@, r.1@) == palette_spec(i as nat),
{
    let k = i % 6;
    if k == 0 {
        ("#e74c3c", "#7d2820")
    } else if k == 1 {
        ("#e67e22", "#7a4212")
    } else if k == 2 {
        ("#f1c40f", "#7d6607")
    } else if k == 3 {
        ("#2ecc71", "#176b3a")
    } else if k == 4 {
        ("#3498db", "#1a5074")
    } else {
        ("#9b59b6", "#512f60")
    }
}

/// The placeholder SVG of a photo: a gradient in its palette colours with
/// its name written in.
pub open spec fn svg_spec(p: PhotoView) -> Seq<char> {
    let (a, b) = palette_spec(palette_index(p.id));
    "<svg xmlns='http://www.w3.org/2000/svg' width='320' height='213' viewBox='0 0 320 213'><defs><linearGradient id='g' x1='0' y1='0' x2='1' y2='1'><stop offset='0' stop-color='"@
        + a + "'/><stop offset='1' stop-color='"@ + b
        + "'/></linearGradient></defs><rect width='320' height='213' fill='url(#g)'/><text x='12' y='200' font-family='sans-serif' font-size='15' fill='rgba(255,255,255,.9)'>"@
        + p.name + "</text></svg>"@
}

pub fn svg_for(p: &Photo) -> (r: String)
    ensures
        r@ == svg_spec(p@),
{
    let id = chars_of(p.id.as_str());
    let dash = vec!['-'];
    assert(dash@ =~= seq!['-']);
    let tail = match rfind_chars(&id, &dash) {
        Some(i) => {
            proof {
                lemma_rfind_bounds(id@, dash@, id@.len() + 1int);
                assert(crate::text::occurs_at(id@, dash@, i as int));
            }
            let ln = id.len();
            slice_chars(&id, i + 1, ln)
        },
        None => id,
    };
    let idx: usize = match parse_usize(&tail) {
        Some(v) => v,
        None => 0,
    };
    let (a, b) = palette(idx);
    let mut s = concat(
        &chars_of(
            "<svg xmlns='http://www.w3.org/2000/svg' width='320' height='213' viewBox='0 0 320 213'><defs><linearGradient id='g' x1='0' y1='0' x2='1' y2='1'><stop offset='0' stop-color='",
        ),
        &chars_of(a),
    );
    s = concat(&s, &chars_of("'/><stop offset='1' stop-color='"));
    s = concat(&s, &chars_of(b));
    s = concat(
        &s,
        &chars_of(
            "'/></linearGradient></defs><rect width='320' height='213' fill='url(#g)'/><text x='12' y='200' font-family='sans-serif' font-size='15' fill='rgba(255,255,255,.9)'>",
        ),
    );
    s = concat(&s, &chars_of(p.name.as_str()));
    s = concat(&s, &chars_of("</text></svg>"));
    string_of(&s)
}

/// The file name of a path: the text after its last `/`.
pub open spec fn file_name_spec(path: Seq<char>) -> Seq<char> {
    match rfind(path, seq!['/']) {
        Some(i) => path.skip(i + 1),
        None => path,
    }
}

/// `Path::extension` of a file's path: the text after the last `.` of its
/// file name, unless the name has no `.`, only a leading one, or is `..`.
pub open spec fn extension_spec(path: Seq<char>) -> Option<Seq<char>> {
    let name = file_name_spec(path);
    if name == ".."@ {
        None
    } else {
        match rfind(name, seq!['.']) {
            Some(i) => if i == 0 {
                None
            } else {
                Some(name.skip(i + 1))
            },
            None => None,
        }
    }
}

pub fn extension(path: &str) -> (r: Option<Vec<char>>)
    ensures
        match extension_spec(path@) {
            Some(e) => r matches Some(v) && v@ == e,
            None => r is None,
        },
{
    let p = chars_of(path);
    let slash = vec!['/'];
    assert(slash@ =~= seq!['/']);
    let n = match rfind_chars(&p, &slash) {
        Some(i) => {
            proof {
                lemma_rfind_bounds(p@, slash@, p@.len() + 1int);
                assert(crate::text::occurs_at(p@, slash@, i as int));
            }
            let lp = p.len();
            slice_chars(&p, i + 1, lp)
        },
        None => p,
    };
    assert(n@ == file_name_spec(path@));
    if eq_chars(&n, &chars_of("..")) {
        return None;
    }
    let dot = vec!['.'];
    assert(dot@ =~= seq!['.']);
    match rfind_chars(&n, &dot) {
        Some(i) => {
            proof {
                lemma_rfind_bounds(n@, dot@, n@.len() + 1int);
                assert(crate::text::occurs_at(n@, dot@, i as int));
            }
            let ln = n.len();
            if i == 0 {
                None
            } else {
                Some(slice_chars(&n, i + 1, ln))
            }
        },
        None => None,
    }
}

pub open spec fn ascii_lowercase(s: Seq<char>) -> Seq<char> {
    s.map_values(|c: char| ascii_lower(c))
}

fn ascii_lowercase_exec(s: &[char]) -> (r: Vec<char>)
    ensures
        r@ == ascii_lowercase(s@),
{
    let mut r: Vec<char> = Vec::new();
    let mut i: usize = 0;
    while i < s.len()
        invariant
            0 <= i <= s@.len(),
            r@ == ascii_lowercase(s@.take(i as int)),
        decreases s.len() - i,
    {
        r.push(crate::text::ascii_lower_exec(s[i]));
        i = i + 1;
        assert(r@ =~= ascii_lowercase(s@.take(i as int)));
    }
    assert(s@.take(s@.len() as int) =~= s@);
    r
}

/// The image extensions served, lowercase.
pub open spec fn image_exts() -> Seq<Seq<char>> {
    seq!["jpg"@, "jpeg"@, "png"@, "webp"@, "gif"@, "avif"@, "bmp"@]
}

/// A file whose extension, lowercased, is an image format's.
pub open spec fn is_image_spec(path: Seq<char>) -> bool {
    match extension_spec(path) {
        Some(e) => image_exts().contains(ascii_lowercase(e)),
        None => false,
    }
}

pub fn is_image(path: &str) -> (r: bool)
    ensures
        r == is_image_spec(path@),
{
    match extension(path) {
        Some(e) => {
            let l = ascii_lowercase_exec(&e);
            let exts = ["jpg", "jpeg", "png", "webp", "gif", "avif", "bmp"];
            let mut i: usize = 0;
            while i < 7
                invariant
                    0 <= i <= 7,
                    exts@.map_values(|s: &str| s@) == image_exts(),
                    extension_spec(path@) == Some(e@),
                    l@ == ascii_lowercase(e@),
                    forall|k: int| 0 <= k < i ==> image_exts()[k] != l@,
                decreases 7 - i,
            {
                if eq_chars(&l, &chars_of(exts[i])) {
                    assert(image_exts()[i as int] == l@);
                    assert(image_exts().contains(l@));
                    return true;
                }
                i = i + 1;
            }
            false
        },
        None => false,
    }
}

/// The content type of an image file, by its lowercased extension.
pub open spec fn file_content_type(path: Seq<char>) -> Seq<char> {
    let e = match extension_spec(path) {
        Some(e) => ascii_lowercase(e),
        None => Seq::empty(),
    };
    if e == "jpg"@ || e == "jpeg"@ {
        "image/jpeg"@
    } else if e == "png"@ {
        "image/png"@
    } else if e == "webp"@ {
        "image/webp"@
    } else if e == "gif"@ {
        "image/gif"@
    } else if e == "avif"@ {
        "image/avif"@
    } else if e == "bmp"@ {
        "image/bmp"@
    } else {
        "application/octet-stream"@
    }
}

pub fn content_type_for(path: &str) -> (r: String)
    ensures
        r@ == file_content_type(path@),
{
    let e = match extension(path) {
        Some(e) => ascii_lowercase_exec(&e),
        None => Vec::new(),
    };
    let ct = if eq_chars(&e, &chars_of("jpg")) || eq_chars(&e, &chars_of("jpeg")) {
        "image/jpeg"
    } else if eq_chars(&e, &chars_of("png")) {
        "image/png"
    } else if eq_chars(&e, &chars_of("webp")) {
        "image/webp"
    } else if eq_chars(&e, &chars_of("gif")) {
        "image/gif"
    } else if eq_chars(&e, &chars_of("avif")) {
        "image/avif"
    } else if eq_chars(&e, &chars_of("bmp")) {
        "image/bmp"
    } else {
        "application/octet-stream"
    };
    ct.to_owned()
}

} // verus!

verus! {

/// `photos[offset..min(offset+limit, total)]`, the total, and whether photos follow.
pub open spec fn mock_page_spec(photos: Seq<PhotoView>, offset: nat, limit: nat) -> (Seq<PhotoView>, usize, bool) {
    let total = photos.len();
    let end = if offset + limit < total {
        offset + limit
    } else {
        total
    };
    (
        if offset < total {
            photos.subrange(offset as int, end as int)
        } else {
            Seq::empty()
        },
        total as usize,
        end < total,
    )
}

impl MockSource {
    /// `mock ({n} photos)`.
    pub fn host(&self) -> (r: String)
        ensures
            r@ == "mock ("@ + decimal(self@.photos.len()) + " photos)"@,
    {
        let n = self.photos.len();
        assert(self@.photos.len() == n);
        string_of(&concat(&concat(&chars_of("mock ("), &decimal_chars(n as u64)), &chars_of(" photos)")))
    }

    /// Photos `[offset, offset+limit)` with the exact total.
    pub fn list_page(&self, offset: usize, limit: usize) -> (r: Page)
        ensures
            (photos_view(r.photos@), r.total, r.has_more) == ({
                let (p, t, m) = mock_page_spec(self@.photos, offset as nat, limit as nat);
                (p, Some(t), m)
            }),
    {
        let total = self.photos.len();
        let end = if offset < total && limit < total - offset {
            offset + limit
        } else {
            total
        };
        let photos = if offset < total {
            clone_photos(&self.photos.as_slice()[offset..end])
        } else {
            Vec::new()
        };
        proof {
            if offset < total {
                assert(photos_view(photos@) =~= photos_view(self.photos@).subrange(offset as int, end as int));
            } else {
                assert(photos_view(photos@) =~= Seq::<PhotoView>::empty());
            }
        }
        Page { photos, total: Some(total), has_more: end < total }
    }

    /// Directory-backed photos are served from their file (the same for
    /// thumbnail and full size); synthetic ones as their SVG placeholder.
    pub fn fetch_thumb(&self, photo: &Photo) -> (r: MockFetch)
        ensures
            match file_lookup(self@.files, photo.id@) {
                Some(path) => r matches MockFetch::File(p) && p@ == path,
                None => r matches MockFetch::Ready(bytes, ct) && bytes@ == vstd::utf8::encode_utf8(
                    svg_spec(photo@),
                ) && ct@ == "image/svg+xml; charset=utf-8"@,
            },
    {
        let id = chars_of(photo.id.as_str());
        let ghost fv = crate::didl::res_view(self.files@);
        let mut i: usize = 0;
        while i < self.files.len()
            invariant
                0 <= i <= self.files@.len(),
                fv == crate::didl::res_view(self.files@),
                fv == self@.files,
                id@ == photo.id@,
                file_lookup_from(fv, id@, 0) == file_lookup_from(fv, id@, i as int),
            decreases self.files.len() - i,
        {
            if eq_chars(&chars_of(self.files[i].0.as_str()), &id) {
                return MockFetch::File(self.files[i].1.clone());
            }
            i = i + 1;
        }
        let svg = svg_for(photo);
        MockFetch::Ready(vstd::slice::slice_to_vec(svg.as_str().as_bytes()), "image/svg+xml; charset=utf-8".to_owned())
    }

    /// The same as the thumbnail.
    pub fn fetch_full(&self, photo: &Photo) -> (r: MockFetch)
        ensures
            match file_lookup(self@.files, photo.id@) {
                Some(path) => r matches MockFetch::File(p) && p@ == path,
                None => r matches MockFetch::Ready(bytes, ct) && bytes@ == vstd::utf8::encode_utf8(
                    svg_spec(photo@),
                ) && ct@ == "image/svg+xml; charset=utf-8"@,
            },
    {
        self.fetch_thumb(photo)
    }
}

/// The path of the first file entry at or after `i` for photo `id`.
pub open spec fn file_lookup_from(files: Seq<(Seq<char>, Seq<char>)>, id: Seq<char>, i: int) -> Option<Seq<char>>
    decreases files.len() - i,
{
    if i < 0 || i >= files.len() {
        None
    } else if files[i].0 == id {
        Some(files[i].1)
    } else {
        file_lookup_from(files, id, i + 1)
    }
}

pub open spec fn file_lookup(files: Seq<(Seq<char>, Seq<char>)>, id: Seq<char>) -> Option<Seq<char>> {
    file_lookup_from(files, id, 0)
}

} // verus!

verus! {

/// Mock pages tile the photo list: the page at `offset` of `a` photos
/// followed by the page right after it of `b` photos is the page at
/// `offset` of `a + b` photos; and more photos follow exactly when the
/// page ends before the total.
pub proof fn law_mock_pages_tile(photos: Seq<PhotoView>, offset: nat, a: nat, b: nat)
    requires
        photos.len() <= usize::MAX,
    ensures
        ({
            let (p1, t1, more1) = mock_page_spec(photos, offset, a);
            let (p2, _, _) = mock_page_spec(photos, offset + a, b);
            let (p3, _, _) = mock_page_spec(photos, offset, a + b);
            &&& p1 + p2 == p3
            &&& t1 == photos.len()
            &&& more1 == (offset + p1.len() < photos.len())
        }),
{
    let (p1, _, _) = mock_page_spec(photos, offset, a);
    let (p2, _, _) = mock_page_spec(photos, offset + a, b);
    let (p3, _, _) = mock_page_spec(photos, offset, a + b);
    assert(p1 + p2 =~= p3);
}

} // verus!

verus! {

/// `a` sorts no later than `b`: compared character by character, a prefix
/// first (the order of `str`'s `Ord`, and of UTF-8 paths in one directory).
pub open spec fn text_le(a: Seq<char>, b: Seq<char>) -> bool
    decreases a.len(),
{
    if a.len() == 0 {
        true
    } else if b.len() == 0 {
        false
    } else if a[0] != b[0] {
        (a[0] as int) < (b[0] as int)
    } else {
        text_le(a.drop_first(), b.drop_first())
    }
}

fn text_le_exec(a: &str, b: &str) -> (r: bool)
    ensures
        r == text_le(a@, b@),
{
    let av = chars_of(a);
    let bv = chars_of(b);
    let mut i: usize = 0;
    assert(av@.skip(0) =~= av@);
    assert(bv@.skip(0) =~= bv@);
    loop
        invariant
            0 <= i <= av@.len(),
            i <= bv@.len(),
            av@ == a@,
            bv@ == b@,
            text_le(a@, b@) == text_le(av@.skip(i as int), bv@.skip(i as int)),
        decreases av@.len() - i,
    {
        if i == av.len() {
            return true;
        }
        if i == bv.len() {
            return false;
        }
        if av[i] != bv[i] {
            return av[i] < bv[i];
        }
        assert(av@.skip(i as int).drop_first() =~= av@.skip(i + 1));
        assert(bv@.skip(i as int).drop_first() =~= bv@.skip(i + 1));
        i = i + 1;
    }
}

/// `f` placed before the first entry of `s` whose path sorts after its own.
pub open spec fn insert_by_path(s: Seq<(Option<Seq<char>>, Seq<char>)>, f: (Option<Seq<char>>, Seq<char>)) -> Seq<
    (Option<Seq<char>>, Seq<char>),
>
    decreases s.len(),
{
    if s.len() == 0 {
        seq![f]
    } else if text_le(s[0].1, f.1) {
        seq![s[0]] + insert_by_path(s.drop_first(), f)
    } else {
        seq![f] + s
    }
}

/// The entries of `s` ordered by path (each inserted in turn).
pub open spec fn sort_by_path(s: Seq<(Option<Seq<char>>, Seq<char>)>) -> Seq<(Option<Seq<char>>, Seq<char>)>
    decreases s.len(),
{
    if s.len() == 0 {
        s
    } else {
        insert_by_path(sort_by_path(s.drop_last()), s.last())
    }
}

/// The entries of `files` whose path names an image file, in order.
pub open spec fn image_files(files: Seq<(Option<Seq<char>>, Seq<char>)>) -> Seq<(Option<Seq<char>>, Seq<char>)>
    decreases files.len(),
{
    if files.len() == 0 {
        Seq::empty()
    } else {
        let prev = image_files(files.drop_last());
        if is_image_spec(files.last().1) {
            prev.push(files.last())
        } else {
            prev
        }
    }
}

proof fn lemma_insert_len(s: Seq<(Option<Seq<char>>, Seq<char>)>, f: (Option<Seq<char>>, Seq<char>))
    ensures
        insert_by_path(s, f).len() == s.len() + 1,
    decreases s.len(),
{
    if s.len() > 0 && text_le(s[0].1, f.1) {
        lemma_insert_len(s.drop_first(), f);
    }
}

proof fn lemma_sort_len(s: Seq<(Option<Seq<char>>, Seq<char>)>)
    ensures
        sort_by_path(s).len() == s.len(),
    decreases s.len(),
{
    if s.len() > 0 {
        lemma_sort_len(s.drop_last());
        lemma_insert_len(sort_by_path(s.drop_last()), s.last());
    }
}

proof fn lemma_image_files_len(files: Seq<(Option<Seq<char>>, Seq<char>)>)
    ensures
        image_files(files).len() <= files.len(),
    decreases files.len(),
{
    if files.len() > 0 {
        lemma_image_files_len(files.drop_last());
    }
}

fn copy_entry(e: &(Option<String>, String)) -> (r: (Option<String>, String))
    ensures
        r == *e,
{
    (
        match &e.0 {
            Some(n) => Some(n.clone()),
            None => None,
        },
        e.1.clone(),
    )
}

fn insert_by_path_exec(v: &mut Vec<(Option<String>, String)>, f: (Option<String>, String))
    ensures
        named_files_view(final(v)@) == insert_by_path(named_files_view(old(v)@), named_files_view(seq![f])[0]),
{
    let ghost s = named_files_view(v@);
    let ghost fv = named_files_view(seq![f])[0];
    let n = v.len();
    let mut k: usize = 0;
    assert(s.take(0) + s.skip(0) =~= s);
    while k < n
        invariant
            0 <= k <= n,
            n == v@.len(),
            s == named_files_view(v@),
            fv == named_files_view(seq![f])[0],
            fv.1 == f.1@,
            insert_by_path(s, fv) == s.take(k as int) + insert_by_path(s.skip(k as int), fv),
        ensures
            0 <= k <= n,
            s == named_files_view(v@),
            insert_by_path(s, fv) == s.take(k as int) + insert_by_path(s.skip(k as int), fv),
            k < n ==> !text_le(s[k as int].1, fv.1),
        decreases n - k,
    {
        if !text_le_exec(v[k].1.as_str(), f.1.as_str()) {
            break;
        }
        assert(s.skip(k as int)[0] == s[k as int]);
        assert(s.skip(k as int).drop_first() =~= s.skip(k + 1));
        assert(s.take(k + 1) =~= s.take(k as int) + seq![s[k as int]]);
        k = k + 1;
    }
    v.insert(k, f);
    assert(named_files_view(v@) =~= s.take(k as int) + seq![fv] + s.skip(k as int));
    if k < n {
        assert(s.skip(k as int)[0] == s[k as int]);
    } else {
        assert(s.skip(k as int) =~= Seq::<(Option<Seq<char>>, Seq<char>)>::empty());
    }
}

/// The image files among `files`, ordered by path.
fn sorted_images(files: &Vec<(Option<String>, String)>) -> (r: Vec<(Option<String>, String)>)
    ensures
        named_files_view(r@) == sort_by_path(image_files(named_files_view(files@))),
{
    let ghost fv = named_files_view(files@);
    let mut out: Vec<(Option<String>, String)> = Vec::new();
    let mut i: usize = 0;
    assert(named_files_view(out@) =~= Seq::<(Option<Seq<char>>, Seq<char>)>::empty());
    while i < files.len()
        invariant
            0 <= i <= files@.len(),
            fv == named_files_view(files@),
            named_files_view(out@) == sort_by_path(image_files(fv.take(i as int))),
        decreases files.len() - i,
    {
        assert(fv.take(i + 1).drop_last() =~= fv.take(i as int));
        assert(fv.take(i + 1).last() == fv[i as int]);
        let ghost prev = image_files(fv.take(i as int));
        if is_image(files[i].1.as_str()) {
            let e = copy_entry(&files[i]);
            assert(named_files_view(seq![e])[0] == fv[i as int]);
            insert_by_path_exec(&mut out, e);
            assert(image_files(fv.take(i + 1)) == prev.push(fv[i as int]));
            assert(prev.push(fv[i as int]).drop_last() =~= prev);
        } else {
            assert(image_files(fv.take(i + 1)) == prev);
        }
        i = i + 1;
    }
    assert(fv.take(files@.len() as int) =~= fv);
    out
}

} // verus!

verus! {

proof fn lemma_text_le_total(a: Seq<char>, b: Seq<char>)
    ensures
        text_le(a, b) || text_le(b, a),
    decreases a.len(),
{
    if a.len() > 0 && b.len() > 0 {
        if a[0] == b[0] {
            lemma_text_le_total(a.drop_first(), b.drop_first());
        } else {
            assert((a[0] as int) != (b[0] as int));
        }
    }
}

proof fn lemma_text_le_trans(a: Seq<char>, b: Seq<char>, c: Seq<char>)
    requires
        text_le(a, b),
        text_le(b, c),
    ensures
        text_le(a, c),
    decreases a.len(),
{
    if a.len() > 0 && b.len() > 0 && c.len() > 0 && a[0] == b[0] && b[0] == c[0] {
        lemma_text_le_trans(a.drop_first(), b.drop_first(), c.drop_first());
    }
}

/// Where `insert_by_path` puts `f`: after the entries whose path sorts no
/// later than its own.
spec fn insert_pos(s: Seq<(Option<Seq<char>>, Seq<char>)>, f: (Option<Seq<char>>, Seq<char>)) -> int
    decreases s.len(),
{
    if s.len() == 0 {
        0
    } else if text_le(s[0].1, f.1) {
        1 + insert_pos(s.drop_first(), f)
    } else {
        0
    }
}

proof fn lemma_insert_pos(s: Seq<(Option<Seq<char>>, Seq<char>)>, f: (Option<Seq<char>>, Seq<char>))
    ensures
        0 <= insert_pos(s, f) <= s.len(),
        insert_by_path(s, f) == s.insert(insert_pos(s, f), f),
        forall|j: int| 0 <= j < insert_pos(s, f) ==> text_le(s[j].1, f.1),
        insert_pos(s, f) < s.len() ==> !text_le(s[insert_pos(s, f)].1, f.1),
    decreases s.len(),
{
    if s.len() == 0 {
        assert(s.insert(0, f) =~= seq![f]);
    } else if text_le(s[0].1, f.1) {
        let t = s.drop_first();
        lemma_insert_pos(t, f);
        let k = insert_pos(t, f);
        assert(seq![s[0]] + t.insert(k, f) =~= s.insert(k + 1, f));
        assert forall|j: int| 0 <= j < k + 1 implies text_le(s[j].1, f.1) by {
            if j > 0 {
                assert(s[j] == t[j - 1]);
            }
        }
        if k < t.len() {
            assert(s[k + 1] == t[k]);
        }
    } else {
        assert(seq![f] + s =~= s.insert(0, f));
    }
}

/// The entries are in path order.
pub open spec fn path_sorted(s: Seq<(Option<Seq<char>>, Seq<char>)>) -> bool {
    forall|i: int, j: int| 0 <= i < j < s.len() ==> text_le(#[trigger] s[i].1, #[trigger] s[j].1)
}

proof fn lemma_insert_sorted(s: Seq<(Option<Seq<char>>, Seq<char>)>, f: (Option<Seq<char>>, Seq<char>))
    requires
        path_sorted(s),
    ensures
        path_sorted(insert_by_path(s, f)),
        insert_by_path(s, f).to_multiset() == s.to_multiset().insert(f),
{
    lemma_insert_pos(s, f);
    let k = insert_pos(s, f);
    let r = s.insert(k, f);
    vstd::seq_lib::to_multiset_insert(s, k, f);
    assert forall|i: int, j: int| 0 <= i < j < r.len() implies text_le(#[trigger] r[i].1, #[trigger] r[j].1) by {
        if j < k {
            assert(r[i] == s[i] && r[j] == s[j]);
        } else if j == k {
            assert(r[i] == s[i]);
        } else if i < k {
            assert(r[i] == s[i] && r[j] == s[j - 1]);
        } else if i == k {
            assert(r[j] == s[j - 1]);
            lemma_text_le_total(s[k].1, f.1);
            if j - 1 > k {
                assert(text_le(s[k].1, s[j - 1].1));
                lemma_text_le_trans(f.1, s[k].1, s[j - 1].1);
            }
        } else {
            assert(r[i] == s[i - 1] && r[j] == s[j - 1]);
        }
    }
}

/// The files of a mock directory are served in path order: sorting orders
/// the entries by path and keeps each entry, as often as it came.
pub proof fn law_sort_by_path(s: Seq<(Option<Seq<char>>, Seq<char>)>)
    ensures
        path_sorted(sort_by_path(s)),
        sort_by_path(s).to_multiset() == s.to_multiset(),
    decreases s.len(),
{
    if s.len() == 0 {
    } else {
        let init = s.drop_last();
        law_sort_by_path(init);
        lemma_insert_sorted(sort_by_path(init), s.last());
        vstd::seq_lib::to_multiset_build(init, s.last());
        assert(init.push(s.last()) =~= s);
    }
}

} // verus!


verus! {

proof fn lemma_text_le_common_prefix(a: Seq<char>, x: Seq<char>, y: Seq<char>)
    ensures
        text_le(a + x, a + y) == text_le(x, y),
        (a + x == a + y) == (x == y),
    decreases a.len(),
{
    if a.len() == 0 {
        assert(a + x =~= x);
        assert(a + y =~= y);
    } else {
        lemma_text_le_common_prefix(a.drop_first(), x, y);
        assert((a + x).drop_first() =~= a.drop_first() + x);
        assert((a + y).drop_first() =~= a.drop_first() + y);
        assert((a + x)[0] == a[0] && (a + y)[0] == a[0]);
        if a + x == a + y {
            assert((a + x).drop_first() == (a + y).drop_first());
        }
    }
}

proof fn lemma_text_lt_prefix(a: Seq<char>, b: Seq<char>, x: Seq<char>, y: Seq<char>)
    requires
        a.len() == b.len(),
        a != b,
        text_le(a, b),
    ensures
        text_le(a + x, b + y),
        a + x != b + y,
    decreases a.len(),
{
    if a.len() == 0 {
        assert(a =~= b);
    } else {
        assert((a + x)[0] == a[0] && (b + y)[0] == b[0]);
        assert((a + x).drop_first() =~= a.drop_first() + x);
        assert((b + y).drop_first() =~= b.drop_first() + y);
        if a[0] == b[0] {
            if a.drop_first() == b.drop_first() {
                assert forall|i: int| 0 <= i < a.len() implies a[i] == b[i] by {
                    if i > 0 {
                        assert(a[i] == a.drop_first()[i - 1]);
                        assert(b[i] == b.drop_first()[i - 1]);
                    }
                }
                assert(a =~= b);
            }
            lemma_text_lt_prefix(a.drop_first(), b.drop_first(), x, y);
            if a + x == b + y {
                assert((a + x).drop_first() == (b + y).drop_first());
            }
        }
    }
}

proof fn lemma_digit_chars(a: nat, b: nat)
    requires
        a < 10,
        b < 10,
    ensures
        crate::decimal::digit_char(a) as int == 48 + a,
        crate::decimal::digit_char(b) as int == 48 + b,
        a != b ==> crate::decimal::digit_char(a) != crate::decimal::digit_char(b),
{
}

proof fn lemma_padded2(x: nat)
    requires
        x < 100,
    ensures
        padded(x, 2) == seq![crate::decimal::digit_char(x / 10), crate::decimal::digit_char(x % 10)],
{
    if x < 10 {
        assert(decimal(x) == seq![crate::decimal::digit_char(x)]);
        lemma_digit_chars(0, x);
        assert(padded(x, 2) =~= seq![crate::decimal::digit_char(x / 10), crate::decimal::digit_char(x % 10)]);
    } else {
        assert(decimal(x / 10) == seq![crate::decimal::digit_char(x / 10)]);
        assert(decimal(x) == decimal(x / 10).push(crate::decimal::digit_char(x % 10)));
        assert(padded(x, 2) =~= seq![crate::decimal::digit_char(x / 10), crate::decimal::digit_char(x % 10)]);
    }
}

proof fn lemma_padded2_lt(x1: nat, x2: nat)
    requires
        x1 < x2 < 100,
    ensures
        padded(x1, 2).len() == 2,
        padded(x2, 2).len() == 2,
        text_le(padded(x1, 2), padded(x2, 2)),
        padded(x1, 2) != padded(x2, 2),
{
    lemma_padded2(x1);
    lemma_padded2(x2);
    let a = padded(x1, 2);
    let b = padded(x2, 2);
    lemma_digit_chars(x1 / 10, x2 / 10);
    lemma_digit_chars(x1 % 10, x2 % 10);
    if x1 / 10 == x2 / 10 {
        assert(x1 % 10 < x2 % 10);
        assert(a.drop_first() =~= seq![crate::decimal::digit_char(x1 % 10)]);
        assert(b.drop_first() =~= seq![crate::decimal::digit_char(x2 % 10)]);
        assert(a[1] != b[1]);
        assert(text_le(a.drop_first(), b.drop_first()));
        assert(text_le(a, b));
    } else {
        assert(x1 / 10 < x2 / 10);
    }
}

proof fn lemma_padded4(y: nat)
    requires
        1000 <= y < 10000,
    ensures
        padded(y, 4) == padded(y / 100, 2) + padded(y % 100, 2),
{
    assert((y / 10) / 10 == y / 100) by (nonlinear_arith)
        requires
            y >= 0,
    ;
    assert((y / 100) / 10 == y / 1000) by (nonlinear_arith)
        requires
            y >= 0,
    ;
    assert((y % 100) / 10 == (y / 10) % 10) by (nonlinear_arith)
        requires
            y >= 0,
    ;
    assert((y % 100) % 10 == y % 10) by (nonlinear_arith)
        requires
            y >= 0,
    ;
    assert(decimal(y / 1000) == seq![crate::decimal::digit_char(y / 1000)]);
    assert(decimal(y / 100) == decimal(y / 1000).push(crate::decimal::digit_char((y / 100) % 10)));
    assert(decimal(y / 10) == decimal(y / 100).push(crate::decimal::digit_char((y / 10) % 10)));
    assert(decimal(y) == decimal(y / 10).push(crate::decimal::digit_char(y % 10)));
    lemma_padded2(y / 100);
    lemma_padded2(y % 100);
    assert(padded(y, 4) =~= padded(y / 100, 2) + padded(y % 100, 2));
}

proof fn lemma_padded4_lt(y1: nat, y2: nat)
    requires
        1000 <= y1 < y2 < 10000,
    ensures
        padded(y1, 4).len() == 4,
        padded(y2, 4).len() == 4,
        text_le(padded(y1, 4), padded(y2, 4)),
        padded(y1, 4) != padded(y2, 4),
{
    lemma_padded4(y1);
    lemma_padded4(y2);
    lemma_padded2(y1 / 100);
    lemma_padded2(y2 / 100);
    lemma_padded2(y1 % 100);
    lemma_padded2(y2 % 100);
    if y1 / 100 < y2 / 100 {
        lemma_padded2_lt(y1 / 100, y2 / 100);
        lemma_text_lt_prefix(padded(y1 / 100, 2), padded(y2 / 100, 2), padded(y1 % 100, 2), padded(y2 % 100, 2));
    } else {
        assert(y1 / 100 == y2 / 100);
        assert(y1 % 100 < y2 % 100);
        lemma_padded2_lt(y1 % 100, y2 % 100);
        lemma_text_le_common_prefix(padded(y1 / 100, 2), padded(y1 % 100, 2), padded(y2 % 100, 2));
    }
}

proof fn lemma_field_step(a1: Seq<char>, a2: Seq<char>, sep: Seq<char>, t1: Seq<char>, t2: Seq<char>)
    requires
        a1.len() == a2.len(),
        (a1 != a2 && text_le(a1, a2)) || (a1 == a2 && text_le(t1, t2) && t1 != t2),
    ensures
        text_le(a1 + (sep + t1), a2 + (sep + t2)),
        a1 + (sep + t1) != a2 + (sep + t2),
{
    if a1 != a2 {
        lemma_text_lt_prefix(a1, a2, sep + t1, sep + t2);
    } else {
        lemma_text_le_common_prefix(a1, sep + t1, sep + t2);
        lemma_text_le_common_prefix(sep, t1, t2);
    }
}

/// A field compared: the first text sorts strictly before the second.
proof fn lemma_padded2_cmp(x1: nat, x2: nat)
    requires
        x1 <= x2 < 100,
    ensures
        padded(x1, 2).len() == padded(x2, 2).len(),
        x1 < x2 ==> padded(x1, 2) != padded(x2, 2) && text_le(padded(x1, 2), padded(x2, 2)),
{
    lemma_padded2(x1);
    lemma_padded2(x2);
    if x1 < x2 {
        lemma_padded2_lt(x1, x2);
    }
}

/// `{y:04}-{mo:02}-{da:02}T{h:02}:{mi:02}:00`, grouped field by field.
spec fn date_text(y: nat, mo: nat, da: nat, h: nat, mi: nat) -> Seq<char> {
    padded(y, 4) + ("-"@ + (padded(mo, 2) + ("-"@ + (padded(da, 2) + ("T"@ + (padded(h, 2) + (":"@ + (
    padded(mi, 2) + ":00"@))))))))
}

proof fn lemma_date_text(d: nat, p: nat)
    ensures
        date_for_spec(d, p) == date_text(2026 + d / 336, 1 + (d / 28) % 12, 1 + d % 28, (p / 60) % 24, p % 60),
{
    assert(date_for_spec(d, p) =~= date_text(2026 + d / 336, 1 + (d / 28) % 12, 1 + d % 28, (p / 60) % 24, p % 60));
}

proof fn lemma_date_text_lt(y1: nat, mo1: nat, da1: nat, h1: nat, mi1: nat, y2: nat, mo2: nat, da2: nat, h2: nat, mi2: nat)
    requires
        1000 <= y1 <= y2 < 10000,
        mo1 < 100 && mo2 < 100 && da1 < 100 && da2 < 100 && h1 < 100 && h2 < 100 && mi1 < 100 && mi2 < 100,
        y1 < y2 || (mo1 < mo2 || (mo1 == mo2 && (da1 < da2 || (da1 == da2 && (h1 < h2 || (h1 == h2 && mi1
            < mi2)))))),
    ensures
        text_le(date_text(y1, mo1, da1, h1, mi1), date_text(y2, mo2, da2, h2, mi2)),
        date_text(y1, mo1, da1, h1, mi1) != date_text(y2, mo2, da2, h2, mi2),
{
    let c = ":00"@;
    let tmi1 = padded(mi1, 2) + c;
    let tmi2 = padded(mi2, 2) + c;
    let th1 = padded(h1, 2) + (":"@ + tmi1);
    let th2 = padded(h2, 2) + (":"@ + tmi2);
    let tda1 = padded(da1, 2) + ("T"@ + th1);
    let tda2 = padded(da2, 2) + ("T"@ + th2);
    let tmo1 = padded(mo1, 2) + ("-"@ + tda1);
    let tmo2 = padded(mo2, 2) + ("-"@ + tda2);
    let lt_mo = mo1 < mo2 || (mo1 == mo2 && (da1 < da2 || (da1 == da2 && (h1 < h2 || (h1 == h2 && mi1 < mi2)))));
    let lt_da = da1 < da2 || (da1 == da2 && (h1 < h2 || (h1 == h2 && mi1 < mi2)));
    let lt_h = h1 < h2 || (h1 == h2 && mi1 < mi2);
    if lt_mo {
        if mo1 == mo2 && lt_da {
            if da1 == da2 && lt_h {
                if h1 == h2 {
                    lemma_padded2_cmp(mi1, mi2);
                    lemma_text_lt_prefix(padded(mi1, 2), padded(mi2, 2), c, c);
                }
                if h1 < h2 {
                    lemma_padded2_cmp(h1, h2);
                } else {
                    lemma_padded2(h1);
                }
                lemma_field_step(padded(h1, 2), padded(h2, 2), ":"@, tmi1, tmi2);
            }
            if da1 < da2 {
                lemma_padded2_cmp(da1, da2);
            } else {
                lemma_padded2(da1);
            }
            lemma_field_step(padded(da1, 2), padded(da2, 2), "T"@, th1, th2);
        }
        if mo1 < mo2 {
            lemma_padded2_cmp(mo1, mo2);
        } else {
            lemma_padded2(mo1);
        }
        lemma_field_step(padded(mo1, 2), padded(mo2, 2), "-"@, tda1, tda2);
    }
    if y1 < y2 {
        lemma_padded4_lt(y1, y2);
    } else {
        lemma_padded4(y1);
        lemma_padded2(y1 / 100);
        lemma_padded2(y1 % 100);
    }
    lemma_field_step(padded(y1, 4), padded(y2, 4), "-"@, tmo1, tmo2);
}

proof fn lemma_date_order(d1: nat, p1: nat, d2: nat, p2: nat)
    requires
        d1 < d2 || (d1 == d2 && p1 < p2),
        p1 < 100,
        p2 < 100,
        d2 < 2679264,
    ensures
        text_le(date_for_spec(d1, p1), date_for_spec(d2, p2)),
        date_for_spec(d1, p1) != date_for_spec(d2, p2),
{
    lemma_date_text(d1, p1);
    lemma_date_text(d2, p2);
    let q1 = d1 / 28;
    let q2 = d2 / 28;
    assert(d1 / 336 == q1 / 12 && d2 / 336 == q2 / 12) by (nonlinear_arith)
        requires
            q1 == d1 / 28,
            q2 == d2 / 28,
    ;
    assert(q1 <= q2 && d1 / 336 <= d2 / 336) by (nonlinear_arith)
        requires
            d1 <= d2,
            q1 == d1 / 28,
            q2 == d2 / 28,
            d1 / 336 == q1 / 12,
            d2 / 336 == q2 / 12,
    ;
    assert(d2 / 336 < 7974) by (nonlinear_arith)
        requires
            d2 < 2679264,
    ;
    if d1 < d2 && d1 / 336 == d2 / 336 {
        if q1 < q2 {
            assert(q1 % 12 < q2 % 12) by (nonlinear_arith)
                requires
                    q1 < q2,
                    q1 / 12 == q2 / 12,
            ;
        } else {
            assert(d1 % 28 < d2 % 28) by (nonlinear_arith)
                requires
                    d1 < d2,
                    d1 / 28 == d2 / 28,
            ;
        }
    }
    if d1 == d2 {
        assert((p1 / 60) % 24 < (p2 / 60) % 24 || ((p1 / 60) % 24 == (p2 / 60) % 24 && p1 % 60 < p2 % 60))
            by (nonlinear_arith)
            requires
                p1 < p2 < 100,
        ;
    }
    lemma_date_text_lt(
        2026 + d1 / 336,
        1 + q1 % 12,
        1 + d1 % 28,
        (p1 / 60) % 24,
        p1 % 60,
        2026 + d2 / 336,
        1 + q2 % 12,
        1 + d2 % 28,
        (p2 / 60) % 24,
        p2 % 60,
    );
}

/// Strictly ascending texts.
pub open spec fn ascending(s: Seq<Seq<char>>) -> bool {
    forall|i: int, j: int| 0 <= i < j < s.len() ==> text_le(#[trigger] s[i], #[trigger] s[j]) && s[i] != s[j]
}

proof fn lemma_dates_from_ascend(n: nat, m: nat, state: u64, day: nat, produced: nat)
    requires
        1 <= m <= 100,
        produced < n ==> day + (n - produced) <= 2679264,
    ensures
        ascending(dates_from(n, m, state, day, produced)),
        forall|d0: nat, p: nat, k: int|
            d0 < day && p < 100 && 0 <= k < dates_from(n, m, state, day, produced).len() ==> text_le(
                #[trigger] date_for_spec(d0, p),
                #[trigger] dates_from(n, m, state, day, produced)[k],
            ) && date_for_spec(d0, p) != dates_from(n, m, state, day, produced)[k],
    decreases n - produced,
{
    if produced < n {
        let next = xorshift(state);
        let size = min_nat(1 + (next as nat) % m, (n - produced) as nat);
        let group = Seq::new(size, |pos: int| date_for_spec(day, pos as nat));
        let rest = dates_from(n, m, next, day + 1, produced + size);
        let r = dates_from(n, m, state, day, produced);
        assert(r == group + rest);
        assert(1 <= size <= m);
        lemma_dates_from_ascend(n, m, next, day + 1, produced + size);
        assert forall|i: int, j: int| 0 <= i < j < r.len() implies text_le(#[trigger] r[i], #[trigger] r[j])
            && r[i] != r[j] by {
            if j < size {
                assert(r[i] == date_for_spec(day, i as nat) && r[j] == date_for_spec(day, j as nat));
                lemma_date_order(day, i as nat, day, j as nat);
            } else if i < size {
                assert(r[i] == date_for_spec(day, i as nat));
                assert(r[j] == rest[j - size]);
                assert(text_le(date_for_spec(day, i as nat), rest[j - size]));
            } else {
                assert(r[i] == rest[i - size] && r[j] == rest[j - size]);
            }
        }
        assert forall|d0: nat, p: nat, k: int|
            d0 < day && p < 100 && 0 <= k < r.len() implies text_le(#[trigger] date_for_spec(d0, p), #[trigger] r[k])
            && date_for_spec(d0, p) != r[k] by {
            if k < size {
                assert(r[k] == date_for_spec(day, k as nat));
                lemma_date_order(d0, p, day, k as nat);
            } else {
                assert(r[k] == rest[k - size]);
                assert(text_le(date_for_spec(d0, p), rest[k - size]));
            }
        }
    }
}

/// Mock dates ascend with the photo index (so that paging newest-first or
/// oldest-first stays in order), for up to 2679264 photos: beyond, a year
/// would need a fifth digit.
pub proof fn law_mock_dates_ascend(n: nat, state: u64)
    requires
        n <= 2679264,
    ensures
        ascending(dates_spec(n, state)),
{
    let m = max_day_spec(n);
    assert(1 <= m <= 100);
    lemma_dates_from_ascend(n, m, state, 0, 0);
}

/// `s` is the date of some day at a position below `m` within that day.
pub open spec fn dated_below(s: Seq<char>, m: nat) -> bool {
    exists|d: nat, p: nat| p < m && #[trigger] date_for_spec(d, p) == s
}

proof fn lemma_dates_from_positions(n: nat, m: nat, state: u64, day: nat, produced: nat)
    requires
        1 <= m,
    ensures
        dates_from(n, m, state, day, produced).len() == if produced < n {
            n - produced
        } else {
            0
        },
        forall|k: int|
            0 <= k < dates_from(n, m, state, day, produced).len() ==> #[trigger] dated_below(
                dates_from(n, m, state, day, produced)[k],
                m,
            ),
    decreases n - produced,
{
    if produced < n {
        let next = xorshift(state);
        let size = min_nat(1 + (next as nat) % m, (n - produced) as nat);
        let group = Seq::new(size, |pos: int| date_for_spec(day, pos as nat));
        let rest = dates_from(n, m, next, day + 1, produced + size);
        assert(dates_from(n, m, state, day, produced) == group + rest);
        lemma_dates_from_positions(n, m, next, day + 1, produced + size);
        assert((next as nat) % m < m);
        assert(size <= m);
        assert forall|k: int| 0 <= k < dates_from(n, m, state, day, produced).len() implies #[trigger] dated_below(
            dates_from(n, m, state, day, produced)[k],
            m,
        ) by {
            if k < size {
                assert(dates_from(n, m, state, day, produced)[k] == date_for_spec(day, k as nat));
            } else {
                assert(dates_from(n, m, state, day, produced)[k] == rest[k - size]);
                assert(dated_below(rest[k - size], m));
            }
        }
    }
}

/// The mock photos of a day are at most `max_day_spec(n)`: between 1 and
/// 100, and for sets of 4 photos or more at most 30% of them. Each photo's
/// time within its day comes from its position in the day, below that size.
pub proof fn law_mock_day_sizes(n: nat, state: u64)
    ensures
        1 <= max_day_spec(n) <= 100,
        n >= 4 ==> max_day_spec(n) * 10 <= 3 * n,
        dates_spec(n, state).len() == n,
        forall|k: int| 0 <= k < n ==> #[trigger] dated_below(dates_spec(n, state)[k], max_day_spec(n)),
{
    lemma_dates_from_positions(n, max_day_spec(n), state, 0, 0);
}

} // verus!
