//! Bookkeeping of the Workshop browser's preview images: which image URLs
//! are loaded, which are being downloaded, and when a download should start.
use vstd::prelude::*;
use crate::text::{contains_str, str_eq, string_of, strings_view};

verus! {

/// The value of an [`ImageCache`]: the URLs whose image is loaded and the
/// URLs being downloaded, each in the order they came.
pub struct ImageCacheView {
    pub loaded: Seq<Seq<char>>,
    pub pending: Seq<Seq<char>>,
}

/// No URL is listed twice, and none is both loaded and pending.
pub open spec fn cache_wf(v: ImageCacheView) -> bool {
    &&& v.loaded.no_duplicates()
    &&& v.pending.no_duplicates()
    &&& forall|k: int| 0 <= k < v.pending.len() ==> !v.loaded.contains(#[trigger] v.pending[k])
}

/// A download of `url` is started: the URL is not empty, not loaded and not
/// already being downloaded.
pub open spec fn wants(v: ImageCacheView, url: Seq<char>) -> bool {
    url.len() > 0 && !v.loaded.contains(url) && !v.pending.contains(url)
}

/// The cache after a request for `url`.
pub open spec fn after_request(v: ImageCacheView, url: Seq<char>) -> ImageCacheView {
    if wants(v, url) {
        ImageCacheView { pending: v.pending.push(url), ..v }
    } else {
        v
    }
}

/// `s` without the entries equal to `x`, in order.
pub open spec fn without(s: Seq<Seq<char>>, x: Seq<char>) -> Seq<Seq<char>> {
    s.filter(|e: Seq<char>| e != x)
}

/// The cache after the download of `url` arrived: it is no longer pending,
/// and it is loaded when its bytes decoded as an image.
pub open spec fn after_received(v: ImageCacheView, url: Seq<char>, decoded: bool) -> ImageCacheView {
    ImageCacheView {
        loaded: if decoded && !v.loaded.contains(url) {
            v.loaded.push(url)
        } else {
            v.loaded
        },
        pending: without(v.pending, url),
    }
}

/// Whether a byte string decodes as an image: `image::guess_format` finds
/// its format from the crate's built-in signatures, and
/// `image::load_from_memory_with_format` decodes it in that format (PNG,
/// JPEG and GIF are built in, the formats Workshop previews come in) within
/// the default memory limits. Neither consults the format hooks a process
/// may register, so the outcome depends on the bytes alone.
pub uninterp spec fn image_decodes(bytes: Seq<u8>) -> bool;

/// `image::guess_format` followed by `image::load_from_memory_with_format`,
/// reduced to whether the image decoded.
///
/// Trusted: the outcome is stated only through the name [`image_decodes`];
/// the decoded image is not kept. It also trusts the PNG, JPEG and GIF
/// decoders to report malformed bytes as an error rather than panic.
#[verifier::external_body]
fn decodes_as_image(bytes: &[u8]) -> (r: bool)
    ensures
        r == image_decodes(bytes@),
{
    match image::guess_format(bytes) {
        Ok(format) => image::load_from_memory_with_format(bytes, format).is_ok(),
        Err(_) => false,
    }
}

/// The preview images of the Workshop browser: the URLs loaded and those
/// being downloaded.
pub struct ImageCache {
    loaded: Vec<String>,
    pending: Vec<String>,
}

impl View for ImageCache {
    type V = ImageCacheView;

    closed spec fn view(&self) -> ImageCacheView {
        ImageCacheView { loaded: strings_view(self.loaded@), pending: strings_view(self.pending@) }
    }
}

proof fn lemma_push_distinct(s: Seq<Seq<char>>, x: Seq<char>)
    requires
        s.no_duplicates(),
        !s.contains(x),
    ensures
        s.push(x).no_duplicates(),
        forall|y: Seq<char>| #[trigger] s.push(x).contains(y) <==> s.contains(y) || y == x,
{
    assert forall|i: int, j: int|
        0 <= i < s.push(x).len() && 0 <= j < s.push(x).len() && i != j implies s.push(x)[i] != s.push(
        x,
    )[j] by {
        if i < s.len() && j < s.len() {
        } else if i == s.len() {
            assert(s.push(x)[j] == s[j]);
        } else {
            assert(s.push(x)[i] == s[i]);
        }
    }
    assert forall|y: Seq<char>| #[trigger] s.push(x).contains(y) implies s.contains(y) || y == x by {
        let k = choose|k: int| 0 <= k < s.push(x).len() && s.push(x)[k] == y;
        if k < s.len() {
            assert(s[k] == y);
        }
    }
    assert forall|y: Seq<char>| s.contains(y) || y == x implies #[trigger] s.push(x).contains(y) by {
        if y == x {
            assert(s.push(x)[s.len() as int] == x);
        } else {
            let k = choose|k: int| 0 <= k < s.len() && s[k] == y;
            assert(s.push(x)[k] == y);
        }
    }
}

proof fn lemma_without(s: Seq<Seq<char>>, x: Seq<char>)
    requires
        s.no_duplicates(),
    ensures
        without(s, x).no_duplicates(),
        forall|y: Seq<char>| #[trigger] without(s, x).contains(y) <==> s.contains(y) && y != x,
    decreases s.len(),
{
    reveal(Seq::filter);
    if s.len() > 0 {
        let d = s.drop_last();
        let l = s.last();
        assert(d.no_duplicates()) by {
            assert forall|i: int, j: int|
                0 <= i < d.len() && 0 <= j < d.len() && i != j implies d[i] != d[j] by {
                assert(d[i] == s[i] && d[j] == s[j]);
            }
        }
        lemma_without(d, x);
        assert(!d.contains(l)) by {
            if d.contains(l) {
                let k = choose|k: int| 0 <= k < d.len() && d[k] == l;
                assert(s[k] == l && s[s.len() - 1] == l);
            }
        }
        assert forall|y: Seq<char>| #[trigger] s.contains(y) <==> d.contains(y) || y == l by {
            if s.contains(y) {
                let k = choose|k: int| 0 <= k < s.len() && s[k] == y;
                if k < d.len() {
                    assert(d[k] == y);
                }
            }
            if d.contains(y) {
                let k = choose|k: int| 0 <= k < d.len() && d[k] == y;
                assert(s[k] == y);
            }
            if y == l {
                assert(s[s.len() - 1] == y);
            }
        }
        if l != x {
            assert(without(s, x) == without(d, x).push(l));
            lemma_push_distinct(without(d, x), l);
        } else {
            assert(without(s, x) == without(d, x));
        }
    }
}

/// `v` without the entries equal to `x`.
fn remove_str(v: &Vec<String>, x: &str) -> (r: Vec<String>)
    ensures
        strings_view(r@) == without(strings_view(v@), x@),
{
    let ghost s = strings_view(v@);
    let mut r: Vec<String> = Vec::new();
    let mut i: usize = 0;
    while i < v.len()
        invariant
            i <= v.len(),
            s == strings_view(v@),
            strings_view(r@) == without(s.take(i as int), x@),
        decreases v.len() - i,
    {
        let ghost before = r@;
        let keep = !str_eq(v[i].as_str(), x);
        if keep {
            r.push(v[i].clone());
        }
        proof {
            reveal(Seq::filter);
            let t = s.take(i + 1);
            assert(t.drop_last() =~= s.take(i as int));
            assert(t.last() == v@[i as int]@);
            if keep {
                assert(strings_view(r@) =~= strings_view(before).push(v@[i as int]@));
            } else {
                assert(strings_view(r@) =~= strings_view(before));
            }
        }
        i = i + 1;
    }
    assert(s.take(v.len() as int) =~= s);
    r
}

impl ImageCache {
    /// The invariant of the cache holds.
    pub closed spec fn wf(&self) -> bool {
        cache_wf(self@)
    }

    /// An empty cache.
    pub fn new() -> (r: Self)
        ensures
            r.wf(),
            r@.loaded.len() == 0,
            r@.pending.len() == 0,
    {
        let r = ImageCache { loaded: Vec::new(), pending: Vec::new() };
        assert(r@.loaded =~= Seq::<Seq<char>>::empty());
        assert(r@.pending =~= Seq::<Seq<char>>::empty());
        r
    }

    /// Asks for the image at `url`; `true` when its download is to start
    /// now, in which case it is pending from here on.
    pub fn request(&mut self, url: &str) -> (r: bool)
        requires
            old(self).wf(),
        ensures
            final(self).wf(),
            r == wants(old(self)@, url@),
            final(self)@ == after_request(old(self)@, url@),
    {
        if url.is_empty() || contains_str(&self.loaded, url) || contains_str(&self.pending, url) {
            return false;
        }
        let ghost v = self@;
        self.pending.push(string_of(url));
        proof {
            assert(strings_view(self.pending@) =~= v.pending.push(url@));
            lemma_push_distinct(v.pending, url@);
            assert(self@ == after_request(v, url@));
            assert forall|k: int| 0 <= k < self@.pending.len() implies !self@.loaded.contains(
                #[trigger] self@.pending[k],
            ) by {
                if k < v.pending.len() {
                    assert(self@.pending[k] == v.pending[k]);
                }
            }
        }
        true
    }

    /// Takes the bytes downloaded for `url`: it is no longer pending, and it
    /// is loaded when `image` decodes the bytes (see [`Self::record_arrival`]).
    pub fn received(&mut self, url: &str, bytes: &[u8])
        requires
            old(self).wf(),
        ensures
            final(self).wf(),
            final(self)@ == after_received(old(self)@, url@, image_decodes(bytes@)),
    {
        let decoded = decodes_as_image(bytes);
        self.record_arrival(url, decoded);
    }

    /// Takes a finished download of `url`: it is no longer pending, and it
    /// is loaded when its bytes decoded as an image.
    pub fn record_arrival(&mut self, url: &str, decoded: bool)
        requires
            old(self).wf(),
        ensures
            final(self).wf(),
            final(self)@ == after_received(old(self)@, url@, decoded),
    {
        let ghost v = self@;
        self.pending = remove_str(&self.pending, url);
        proof {
            lemma_without(v.pending, url@);
        }
        if decoded && !contains_str(&self.loaded, url) {
            self.loaded.push(string_of(url));
            proof {
                assert(strings_view(self.loaded@) =~= v.loaded.push(url@));
                lemma_push_distinct(v.loaded, url@);
            }
        }
        proof {
            let w = self@;
            assert(w == after_received(v, url@, decoded));
            assert forall|k: int| 0 <= k < w.pending.len() implies !w.loaded.contains(
                #[trigger] w.pending[k],
            ) by {
                let y = w.pending[k];
                assert(without(v.pending, url@).contains(y));
                assert(v.pending.contains(y) && y != url@);
                let m = choose|m: int| 0 <= m < v.pending.len() && v.pending[m] == y;
                assert(!v.loaded.contains(v.pending[m]));
                if decoded && !v.loaded.contains(url@) {
                    lemma_push_distinct(v.loaded, url@);
                }
            }
        }
    }

    /// Whether the image at `url` is loaded.
    pub fn is_loaded(&self, url: &str) -> (r: bool)
        ensures
            r == self@.loaded.contains(url@),
    {
        contains_str(&self.loaded, url)
    }

    /// Whether some download is still running.
    pub fn is_busy(&self) -> (r: bool)
        ensures
            r == (self@.pending.len() > 0),
    {
        self.pending.len() > 0
    }
}

/// A second request for the same image starts nothing: after one request
/// the URL is pending (or was loaded, pending or empty already).
pub proof fn lemma_request_once(v: ImageCacheView, url: Seq<char>)
    ensures
        !wants(after_request(v, url), url),
        after_request(after_request(v, url), url) == after_request(v, url),
{
    if wants(v, url) {
        assert(v.pending.push(url)[v.pending.len() as int] == url);
    }
}

/// An image that arrived and decoded is never downloaded again.
pub proof fn lemma_loaded_stays(v: ImageCacheView, url: Seq<char>, other: Seq<char>)
    ensures
        after_received(v, url, true).loaded.contains(url),
        !wants(after_received(v, url, true), url),
        v.loaded.contains(other) ==> after_received(v, url, true).loaded.contains(other),
{
    if !v.loaded.contains(url) {
        assert(v.loaded.push(url)[v.loaded.len() as int] == url);
        if v.loaded.contains(other) {
            let k = choose|k: int| 0 <= k < v.loaded.len() && v.loaded[k] == other;
            assert(v.loaded.push(url)[k] == other);
        }
    }
}

} // verus!
