//! Path segmentation.
//!
//! A path is normalized into a sequence of `/`-delimited byte segments:
//! one leading and one trailing separator are stripped, the root path
//! (`"/"` or `""`) yields no segments at all, and anything else is split
//! at every remaining separator.  Consecutive internal separators produce
//! empty segments from the split; only the single leading and trailing
//! separator are treated specially, so that segment positions are stable.

use vstd::prelude::*;
use vstd::slice::{slice_index_get, slice_subrange};
use vstd::string::StringSliceAdditionalSpecFns;

verus! {

/// The path separator byte, `b'/'`.
pub open spec fn separator() -> u8 {
    47u8
}

/// True exactly for the path separator byte.
pub fn is_slash(c: &u8) -> (r: bool)
    ensures
        r == (*c == separator()),
{
    *c == 47u8
}

/// One leading and one trailing separator removed, in that order.
pub open spec fn strip_separators(s: Seq<u8>) -> Seq<u8> {
    let t = if s.len() > 0 && s[0] == separator() {
        s.skip(1)
    } else {
        s
    };
    if t.len() > 0 && t[t.len() - 1] == separator() {
        t.take(t.len() - 1)
    } else {
        t
    }
}

/// The pieces of `s` split at every separator byte.  There is always at
/// least one piece, and consecutive separators yield empty pieces.
pub open spec fn split_at_separators(s: Seq<u8>) -> Seq<Seq<u8>>
    decreases s.len(),
{
    if s.len() == 0 {
        seq![Seq::<u8>::empty()]
    } else if s[0] == separator() {
        seq![Seq::<u8>::empty()] + split_at_separators(s.skip(1))
    } else {
        let rest = split_at_separators(s.skip(1));
        seq![seq![s[0]] + rest[0]] + rest.skip(1)
    }
}

/// The canonical segment sequence of a path given as bytes: strip one
/// leading and one trailing separator, yield nothing for the root path,
/// and split the rest at every separator.
pub open spec fn byte_segments(s: Seq<u8>) -> Seq<Seq<u8>> {
    if strip_separators(s).len() == 0 {
        Seq::empty()
    } else {
        split_at_separators(strip_separators(s))
    }
}

/// Splitting always yields at least one piece.
pub proof fn lemma_split_len(s: Seq<u8>)
    ensures
        split_at_separators(s).len() >= 1,
    decreases s.len(),
{
    if s.len() == 0 {
    } else if s[0] == separator() {
        lemma_split_len(s.skip(1));
    } else {
        lemma_split_len(s.skip(1));
    }
}

/// A sequence without separators splits into the single piece that is
/// the sequence itself.
pub proof fn lemma_split_no_separator(s: Seq<u8>)
    requires
        forall|j: int| 0 <= j < s.len() ==> s[j] != separator(),
    ensures
        split_at_separators(s) == seq![s],
    decreases s.len(),
{
    if s.len() == 0 {
        assert(split_at_separators(s) =~~= seq![s]);
    } else {
        lemma_split_no_separator(s.skip(1));
        let rest = split_at_separators(s.skip(1));
        assert(rest[0] == s.skip(1));
        assert(seq![s[0]] + s.skip(1) =~= s);
        assert(split_at_separators(s) =~~= seq![s]);
    }
}

/// Splitting at the first separator: everything before it is the first
/// piece, and the remainder splits on its own.
pub proof fn lemma_split_first_separator(s: Seq<u8>, i: int)
    requires
        0 <= i < s.len(),
        s[i] == separator(),
        forall|j: int| 0 <= j < i ==> s[j] != separator(),
    ensures
        split_at_separators(s) == seq![s.take(i)] + split_at_separators(s.skip(i + 1)),
    decreases i,
{
    if i == 0 {
        assert(s.take(0) =~= Seq::<u8>::empty());
        assert(split_at_separators(s) =~~= seq![s.take(0)] + split_at_separators(s.skip(1)));
    } else {
        let t = s.skip(1);
        assert(t[i - 1] == separator());
        assert(forall|j: int| 0 <= j < i - 1 ==> t[j] != separator());
        lemma_split_first_separator(t, i - 1);
        let rest = split_at_separators(t);
        assert(rest == seq![t.take(i - 1)] + split_at_separators(t.skip(i)));
        lemma_split_len(t.skip(i));
        assert(rest[0] == t.take(i - 1));
        assert(seq![s[0]] + t.take(i - 1) =~= s.take(i));
        assert(t.skip(i) =~= s.skip(i + 1));
        assert(rest.skip(1) =~= split_at_separators(s.skip(i + 1)));
        assert(split_at_separators(s) =~~= seq![s.take(i)] + split_at_separators(s.skip(i + 1)));
    }
}

/// The pieces of `s`, split at every separator byte, as borrowed slices
/// into `s` itself.
fn split_slice<'a>(s: &'a [u8]) -> (r: Vec<&'a [u8]>)
    ensures
        r.deep_view() == split_at_separators(s@),
{
    let n = s.len();
    let mut r: Vec<&'a [u8]> = Vec::new();
    proof {
        assert(r.deep_view() =~= Seq::<Seq<u8>>::empty());
        assert(s@.skip(0) =~= s@);
    }
    let mut start: usize = 0;
    let mut i: usize = 0;
    while i < n
        invariant
            n == s@.len(),
            0 <= start <= i <= n,
            forall|j: int| start <= j < i ==> s@[j] != separator(),
            split_at_separators(s@) == r.deep_view() + split_at_separators(s@.skip(start as int)),
        decreases n - i,
    {
        if is_slash(slice_index_get(s, i)) {
            let seg = slice_subrange(s, start, i);
            let ghost old_dv = r.deep_view();
            r.push(seg);
            proof {
                let tail = s@.skip(start as int);
                lemma_split_first_separator(tail, i - start);
                assert(tail.take(i - start) =~= seg@);
                assert(tail.skip(i - start + 1) =~= s@.skip(i + 1));
                assert(seg.deep_view() =~= seg@);
                assert(r.deep_view() =~= old_dv + seq![seg@]);
                assert(r.deep_view() + split_at_separators(s@.skip(i + 1)) =~~= old_dv
                    + split_at_separators(tail));
            }
            start = i + 1;
        }
        i = i + 1;
    }
    let seg = slice_subrange(s, start, n);
    let ghost old_dv = r.deep_view();
    r.push(seg);
    proof {
        let tail = s@.skip(start as int);
        lemma_split_no_separator(tail);
        assert(tail =~= seg@);
        assert(seg.deep_view() =~= seg@);
        assert(r.deep_view() =~= old_dv + seq![seg@]);
        assert(r.deep_view() =~~= old_dv + split_at_separators(tail));
    }
    r
}

/// The segment sequence of a root path (`Root`) or of a non-root path
/// (`Path`), for when a root path may be hard to represent.
#[derive(Clone)]
pub enum RouteIter<'a> {
    /// A root path (`/`): no segments at all.
    Root,
    /// A non-root path (`path/to/somewhere`): its segments, in order.
    Path(Vec<&'a [u8]>),
}

impl<'a> RouteIter<'a> {
    /// The segments this value stands for, the root path having none.
    pub open spec fn seg_view(&self) -> Seq<Seq<u8>> {
        match self {
            RouteIter::Root => Seq::empty(),
            RouteIter::Path(v) => v.deep_view(),
        }
    }

    /// The front segment, removed; `None` on a root or exhausted path.
    pub fn next(&mut self) -> (r: Option<&'a [u8]>)
        ensures
            old(self).seg_view().len() == 0 ==> r is None && final(self).seg_view()
                == old(self).seg_view(),
            old(self).seg_view().len() > 0 ==> (r matches Some(seg) && seg@
                == old(self).seg_view()[0] && final(self).seg_view() == old(
                self,
            ).seg_view().skip(1)),
    {
        match self {
            RouteIter::Root => None,
            RouteIter::Path(v) => {
                if v.len() > 0 {
                    let ghost old_v = *v;
                    let seg = v.remove(0);
                    proof {
                        assert(seg.deep_view() =~= seg@);
                        assert(v.deep_view() =~= old_v.deep_view().skip(1));
                    }
                    Some(seg)
                } else {
                    None
                }
            },
        }
    }

    /// How many segments remain: the count is known exactly.
    pub fn size_hint(&self) -> (r: (usize, Option<usize>))
        ensures
            r.0 == self.seg_view().len(),
            r.1 == Some(r.0),
    {
        match self {
            RouteIter::Root => (0, Some(0)),
            RouteIter::Path(v) => (v.len(), Some(v.len())),
        }
    }

    /// All remaining segments, in order; empty for a root path.
    pub fn into_vec(self) -> (r: Vec<&'a [u8]>)
        ensures
            r.deep_view() == self.seg_view(),
    {
        match self {
            RouteIter::Root => {
                let r: Vec<&'a [u8]> = Vec::new();
                proof {
                    assert(r.deep_view() =~= Seq::<Seq<u8>>::empty());
                }
                r
            },
            RouteIter::Path(v) => v,
        }
    }
}

/// A segmented route: any value that denotes a sequence of path segments.
pub trait Route {
    /// The segment sequence this value denotes.
    spec fn route_segments(&self) -> Seq<Seq<u8>>;

    /// Materialize the segment sequence, in order; empty for a root path.
    fn segments(&self) -> (r: Vec<&[u8]>)
        ensures
            r.deep_view() == self.route_segments(),
    ;
}

impl Route for [u8] {
    open spec fn route_segments(&self) -> Seq<Seq<u8>> {
        byte_segments(self@)
    }

    fn segments(&self) -> (r: Vec<&[u8]>) {
        let n = self.len();
        let s: &[u8] = if n > 0 && is_slash(slice_index_get(self, 0)) {
            slice_subrange(self, 1, n)
        } else {
            self
        };
        let m = s.len();
        let t: &[u8] = if m > 0 && is_slash(slice_index_get(s, m - 1)) {
            slice_subrange(s, 0, m - 1)
        } else {
            s
        };
        proof {
            assert(t@ =~= strip_separators(self@));
        }
        let iter = if t.len() == 0 {
            RouteIter::Root
        } else {
            RouteIter::Path(split_slice(t))
        };
        iter.into_vec()
    }
}

impl Route for str {
    open spec fn route_segments(&self) -> Seq<Seq<u8>> {
        byte_segments(self.spec_bytes())
    }

    fn segments(&self) -> (r: Vec<&[u8]>) {
        self.as_bytes().segments()
    }
}

impl Route for String {
    open spec fn route_segments(&self) -> Seq<Seq<u8>> {
        byte_segments(vstd::utf8::encode_utf8(self@))
    }

    fn segments(&self) -> (r: Vec<&[u8]>) {
        self.as_str().segments()
    }
}

/// The ordered concatenation of the segment sequences of the elements.
pub open spec fn flat_segments<T: Route>(s: Seq<T>) -> Seq<Seq<u8>>
    decreases s.len(),
{
    if s.len() == 0 {
        Seq::empty()
    } else {
        s[0].route_segments() + flat_segments(s.skip(1))
    }
}

impl<T: Route> Route for [T] {
    open spec fn route_segments(&self) -> Seq<Seq<u8>> {
        flat_segments(self@)
    }

    fn segments(&self) -> (r: Vec<&[u8]>) {
        let n = self.len();
        let mut r: Vec<&[u8]> = Vec::new();
        proof {
            assert(r.deep_view() =~= Seq::<Seq<u8>>::empty());
            assert(self@.skip(0) =~= self@);
        }
        let mut i: usize = 0;
        while i < n
            invariant
                n == self@.len(),
                0 <= i <= n,
                flat_segments(self@) == r.deep_view() + flat_segments(self@.skip(i as int)),
            decreases n - i,
        {
            let element = slice_index_get(self, i);
            let mut segs = element.segments();
            let ghost old_dv = r.deep_view();
            let ghost segs_dv = segs.deep_view();
            r.append(&mut segs);
            proof {
                let tail = self@.skip(i as int);
                assert(tail[0] == self@[i as int]);
                assert(tail.skip(1) =~= self@.skip(i as int + 1));
                assert(r.deep_view() =~= old_dv + segs_dv);
                assert(r.deep_view() + flat_segments(self@.skip(i as int + 1)) =~~= old_dv
                    + flat_segments(tail));
            }
            i = i + 1;
        }
        proof {
            assert(self@.skip(n as int) =~= Seq::<T>::empty());
            assert(r.deep_view() =~~= flat_segments(self@));
        }
        r
    }
}

impl<T: Route> Route for Vec<T> {
    open spec fn route_segments(&self) -> Seq<Seq<u8>> {
        flat_segments(self@)
    }

    fn segments(&self) -> (r: Vec<&[u8]>) {
        self.as_slice().segments()
    }
}

impl<T: Route + ?Sized> Route for &T {
    open spec fn route_segments(&self) -> Seq<Seq<u8>> {
        (**self).route_segments()
    }

    fn segments(&self) -> (r: Vec<&[u8]>) {
        (**self).segments()
    }
}

} // verus!
