//! The typed photo model.

use vstd::prelude::*;

verus! {

/// One image enumerated from the camera.
///
/// `thumb_url` / `full_url` are the camera's own media URLs; the server proxies
/// them so the browser never contacts the camera directly.
#[derive(Debug)]
pub struct Photo {
    pub id: String,
    pub name: String,
    pub date: String,
    pub thumb_url: String,
    pub full_url: String,
}

/// What a `Photo` holds, as text.
pub struct PhotoView {
    pub id: Seq<char>,
    pub name: Seq<char>,
    pub date: Seq<char>,
    pub thumb_url: Seq<char>,
    pub full_url: Seq<char>,
}

impl View for Photo {
    type V = PhotoView;

    open spec fn view(&self) -> PhotoView {
        PhotoView {
            id: self.id@,
            name: self.name@,
            date: self.date@,
            thumb_url: self.thumb_url@,
            full_url: self.full_url@,
        }
    }
}

impl Clone for Photo {
    fn clone(&self) -> (r: Self)
        ensures
            r == *self,
    {
        Photo {
            id: self.id.clone(),
            name: self.name.clone(),
            date: self.date.clone(),
            thumb_url: self.thumb_url.clone(),
            full_url: self.full_url.clone(),
        }
    }
}

impl PartialEq for Photo {
    fn eq(&self, other: &Self) -> (r: bool) {
        self.id == other.id && self.name == other.name && self.date == other.date
            && self.thumb_url == other.thumb_url && self.full_url == other.full_url
    }
}

impl vstd::std_specs::cmp::PartialEqSpecImpl for Photo {
    open spec fn obeys_eq_spec() -> bool {
        true
    }

    open spec fn eq_spec(&self, other: &Photo) -> bool {
        self@ == other@
    }
}

impl Eq for Photo {}

/// Copies of the photos in `v`, in order.
pub fn clone_photos(v: &[Photo]) -> (r: Vec<Photo>)
    ensures
        r@ == v@,
{
    let mut r: Vec<Photo> = Vec::new();
    let mut i: usize = 0;
    while i < v.len()
        invariant
            0 <= i <= v.len(),
            r@ == v@.take(i as int),
        decreases v.len() - i,
    {
        r.push(v[i].clone());
        i = i + 1;
        assert(r@ =~= v@.take(i as int));
    }
    assert(v@.take(v.len() as int) =~= v@);
    r
}

} // verus!
