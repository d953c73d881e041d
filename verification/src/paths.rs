//! Executable helpers on path strings and segment vectors, proved against
//! the path model: splitting a path string into its segments, rendering
//! segments back to text, and small vector utilities.

use vstd::prelude::*;
use vstd::string::*;

use crate::model::display_path;
use crate::model::lemma_first_slash_at;
use crate::model::segments_of;

verus! {

/// Split a path string into its non-empty `/`-separated segments.
pub fn split_path(s: &str) -> (r: Vec<String>)
    ensures
        r.deep_view() == segments_of(s@),
{
    let n = s.unicode_len();
    let mut res: Vec<String> = Vec::new();
    let mut i: usize = 0;
    proof {
        assert(s@.skip(0) =~= s@);
    }
    while i < n
        invariant
            n == s@.len(),
            i <= n,
            res.deep_view() + segments_of(s@.skip(i as int)) == segments_of(s@),
        decreases n - i,
    {
        let ghost tail = s@.skip(i as int);
        let ghost res0 = res.deep_view();
        let mut j: usize = i;
        while j < n && s.get_char(j) != '/'
            invariant
                n == s@.len(),
                i <= j <= n,
                forall|k: int| i <= k < j ==> s@[k] != '/',
            decreases n - j,
        {
            j = j + 1;
        }
        proof {
            assert forall|m: int| 0 <= m < j - i implies tail[m] != '/' by {
                assert(tail[m] == s@[i + m]);
            }
            if j < n {
                assert(tail[j - i] == s@[j as int]);
            }
            lemma_first_slash_at(tail, j - i);
        }
        if j > i {
            let seg = s.substring_char(i, j);
            res.push(seg.to_owned());
            proof {
                assert(tail.take(j - i) =~= s@.subrange(i as int, j as int));
                assert(res.deep_view() =~= res0 + seq![tail.take(j - i)]);
            }
        }
        proof {
            let head: Seq<Seq<char>> = if j == i {
                Seq::empty()
            } else {
                seq![tail.take(j - i)]
            };
            assert(res.deep_view() =~= res0 + head);
            if j < n {
                assert(tail.skip(j - i + 1) =~= s@.skip(j + 1));
                assert(segments_of(tail) == head + segments_of(s@.skip(j + 1)));
                assert((res0 + head) + segments_of(s@.skip(j + 1)) =~= res0 + (head + segments_of(
                    s@.skip(j + 1),
                )));
            } else {
                assert(segments_of(tail) == head);
                assert((res0 + head) + Seq::<Seq<char>>::empty() =~= res0 + head);
                assert(s@.skip(n as int) =~= Seq::<char>::empty());
            }
        }
        if j < n {
            i = j + 1;
        } else {
            i = n;
        }
    }
    proof {
        assert(s@.skip(n as int) =~= Seq::<char>::empty());
        assert(res.deep_view() + Seq::<Seq<char>>::empty() =~= res.deep_view());
    }
    res
}

/// Render segments back to a path string, joined by `/`.
pub fn render_path(segs: &Vec<String>) -> (r: String)
    ensures
        r@ == display_path(segs.deep_view()),
{
    let mut s = String::new();
    let mut i: usize = 0;
    while i < segs.len()
        invariant
            i <= segs.len(),
            s@ == display_path(segs.deep_view().take(i as int)),
        decreases segs.len() - i,
    {
        if i > 0 {
            s.append("/");
            proof {
                reveal_strlit("/");
                assert("/"@ =~= seq!['/']);
            }
        }
        s.append(segs[i].as_str());
        proof {
            let dv = segs.deep_view();
            assert(dv.take(i + 1).drop_last() =~= dv.take(i as int));
            assert(dv.take(i + 1).last() == dv[i as int]);
        }
        i = i + 1;
    }
    proof {
        assert(segs.deep_view().take(segs.len() as int) =~= segs.deep_view());
    }
    s
}

/// Whether two segment vectors denote the same path.
pub fn segs_eq(a: &Vec<String>, b: &Vec<String>) -> (r: bool)
    ensures
        r == (a.deep_view() == b.deep_view()),
{
    if a.len() != b.len() {
        proof {
            assert(a.deep_view().len() == a.len());
            assert(b.deep_view().len() == b.len());
        }
        return false;
    }
    let mut i: usize = 0;
    while i < a.len()
        invariant
            a.len() == b.len(),
            i <= a.len(),
            forall|k: int| 0 <= k < i ==> a@[k]@ == b@[k]@,
        decreases a.len() - i,
    {
        if !(a[i] == b[i]) {
            proof {
                assert(a.deep_view()[i as int] == a@[i as int]@);
                assert(b.deep_view()[i as int] == b@[i as int]@);
            }
            return false;
        }
        i = i + 1;
    }
    proof {
        assert forall|k: int| 0 <= k < a.len() implies a.deep_view()[k] == b.deep_view()[k] by {
            assert(a.deep_view()[k] == a@[k]@);
            assert(b.deep_view()[k] == b@[k]@);
        }
        assert(a.deep_view() =~= b.deep_view());
    }
    true
}

/// An independent copy of a segment vector.
pub fn clone_segs(v: &Vec<String>) -> (r: Vec<String>)
    ensures
        r.deep_view() == v.deep_view(),
{
    let mut r: Vec<String> = Vec::new();
    let mut i: usize = 0;
    while i < v.len()
        invariant
            i <= v.len(),
            r@.len() == i,
            forall|k: int| 0 <= k < i ==> r@[k]@ == v@[k]@,
        decreases v.len() - i,
    {
        r.push(String::from_str(v[i].as_str()));
        i = i + 1;
    }
    proof {
        assert forall|k: int| 0 <= k < v.len() implies r.deep_view()[k] == v.deep_view()[k] by {
            assert(r.deep_view()[k] == r@[k]@);
            assert(v.deep_view()[k] == v@[k]@);
        }
        assert(r.deep_view() =~= v.deep_view());
    }
    r
}

/// `v` with one more segment at the end.
pub fn push_seg(v: &Vec<String>, s: &str) -> (r: Vec<String>)
    ensures
        r.deep_view() == v.deep_view().push(s@),
{
    let mut r = clone_segs(v);
    let ghost r0 = r@;
    let ghost dv0 = r.deep_view();
    r.push(String::from_str(s));
    proof {
        assert forall|k: int| 0 <= k < r.deep_view().len() implies r.deep_view()[k]
            == v.deep_view().push(s@)[k] by {
            assert(r.deep_view()[k] == r@[k]@);
            if k < r0.len() {
                assert(r@[k] == r0[k]);
                assert(dv0[k] == r0[k]@);
            }
        }
        assert(r.deep_view() =~= v.deep_view().push(s@));
    }
    r
}

/// The path one level up: all segments but the last.
pub fn parent_segs(v: &Vec<String>) -> (r: Vec<String>)
    requires
        v.len() > 0,
    ensures
        r.deep_view() == v.deep_view().drop_last(),
{
    let mut r: Vec<String> = Vec::new();
    let mut i: usize = 0;
    while i < v.len() - 1
        invariant
            v.len() > 0,
            i <= v.len() - 1,
            r@.len() == i,
            forall|k: int| 0 <= k < i ==> r@[k]@ == v@[k]@,
        decreases v.len() - i,
    {
        r.push(String::from_str(v[i].as_str()));
        i = i + 1;
    }
    proof {
        assert forall|k: int| 0 <= k < v.len() - 1 implies r.deep_view()[k] == v.deep_view().drop_last()[k] by {
            assert(r.deep_view()[k] == r@[k]@);
            assert(v.deep_view()[k] == v@[k]@);
        }
        assert(r.deep_view() =~= v.deep_view().drop_last());
    }
    r
}

} // verus!
