//! Filesystem paths as sequences of byte segments.
//!
//! The scanner and the tree builder only ever read a path's components:
//! their count, prefix relationships, and their byte-wise order. A path is
//! therefore held as a vector of byte segments; the presentation layer
//! converts real paths to and from this form at the boundary.

use vstd::prelude::*;
use crate::order::bytes_lt;
use crate::order::bytes_eq;
use crate::order::bytes_less;
use crate::order::lex_lt;
use crate::order::strict_total;
use crate::order::lemma_bytes_lt_strict_total;
use crate::order::lemma_lex_lt_connected;

verus! {

/// An absolute directory path, one byte segment per component.
pub struct DirPath {
    pub segments: Vec<Vec<u8>>,
}

impl View for DirPath {
    type V = Seq<Seq<u8>>;

    open spec fn view(&self) -> Seq<Seq<u8>> {
        self.segments@.map_values(|s: Vec<u8>| s@)
    }
}

/// `p` is `q` itself or an ancestor of `q`.
pub open spec fn is_prefix_of(p: Seq<Seq<u8>>, q: Seq<Seq<u8>>) -> bool {
    p.len() <= q.len() && q.subrange(0, p.len() as int) == p
}

/// The strict order on segments, byte-wise lexicographic.
pub open spec fn seg_lt() -> spec_fn(Seq<u8>, Seq<u8>) -> bool {
    |x: Seq<u8>, y: Seq<u8>| bytes_lt(x, y)
}

/// Strict order on paths: lexicographic over components, each compared
/// byte-wise. This mirrors component-wise path comparison.
pub open spec fn path_lt(a: Seq<Seq<u8>>, b: Seq<Seq<u8>>) -> bool {
    lex_lt(a, b, seg_lt())
}

pub proof fn lemma_path_lt_strict_total()
    ensures
        strict_total(|a: Seq<Seq<u8>>, b: Seq<Seq<u8>>| path_lt(a, b)),
{
    let plt = |a: Seq<Seq<u8>>, b: Seq<Seq<u8>>| path_lt(a, b);
    lemma_bytes_lt_strict_total();
    assert(strict_total(seg_lt()));
    assert forall|x: Seq<Seq<u8>>, y: Seq<Seq<u8>>| #[trigger] plt(x, y) implies !plt(y, x) by {
        crate::order::lemma_lex_lt_asym(x, y, seg_lt());
    }
    assert forall|x: Seq<Seq<u8>>, y: Seq<Seq<u8>>| !#[trigger] plt(x, y) && !plt(y, x) implies x
        == y by {
        lemma_lex_lt_connected(x, y, seg_lt());
    }
    assert forall|x: Seq<Seq<u8>>, y: Seq<Seq<u8>>, z: Seq<Seq<u8>>|
        #[trigger] plt(x, y) && #[trigger] plt(y, z) implies plt(x, z) by {
        crate::order::lemma_lex_lt_trans(x, y, z, seg_lt());
    }
}

impl DirPath {
    /// The empty path, parent of everything it is later extended with.
    pub fn empty() -> (r: DirPath)
        ensures
            r@ =~= Seq::<Seq<u8>>::empty(),
            r.segments@ =~= Seq::<Vec<u8>>::empty(),
    {
        DirPath { segments: Vec::new() }
    }

    /// Number of components.
    pub fn depth(&self) -> (r: usize)
        ensures
            r == self@.len(),
    {
        self.segments.len()
    }

    /// Appends one segment.
    pub fn push_seg(&mut self, seg: Vec<u8>)
        ensures
            final(self)@ =~= old(self)@.push(seg@),
    {
        self.segments.push(seg);
    }

    /// A copy of this path followed by the components of `rel`.
    pub fn join(&self, rel: &DirPath) -> (r: DirPath)
        ensures
            r@ =~= self@ + rel@,
    {
        let mut out = self.clone();
        let mut i: usize = 0;
        while i < rel.segments.len()
            invariant
                0 <= i <= rel.segments.len(),
                out.segments@.len() == self@.len() + i,
                out@ =~= self@ + rel@.subrange(0, i as int),
            decreases rel.segments.len() - i,
        {
            let seg = clone_bytes(&rel.segments[i]);
            let ghost pre = out@;
            out.segments.push(seg);
            proof {
                assert(out@.len() == self@.len() + i + 1);
                assert(seg@ == rel@[i as int]);
                assert(out@[self@.len() + i as int] == seg@);
                assert(forall|j: int| 0 <= j < pre.len() ==> out@[j] == pre[j]);
                assert forall|j: int| 0 <= j < self@.len() + i + 1 implies out@[j] == (self@
                    + rel@.subrange(0, i + 1))[j] by {
                    if j < self@.len() {
                        assert(out@[j] == pre[j]);
                        assert(pre[j] == (self@ + rel@.subrange(0, i as int))[j]);
                        assert((self@ + rel@.subrange(0, i as int))[j] == self@[j]);
                    } else if j < self@.len() + i {
                        assert(out@[j] == pre[j]);
                        assert(pre[j] == rel@.subrange(0, i as int)[j - self@.len()]);
                        assert(rel@.subrange(0, i as int)[j - self@.len()] == rel@[j
                            - self@.len()]);
                    } else {
                        assert(out@[j] == seg@);
                    }
                }
                assert(out@ =~= self@ + rel@.subrange(0, i + 1));
            }
            i = i + 1;
        }
        proof {
            assert(rel@.subrange(0, rel@.len() as int) =~= rel@);
        }
        out
    }

    /// Whether `prefix` is this path or an ancestor of it.
    pub fn starts_with(&self, prefix: &DirPath) -> (r: bool)
        ensures
            r == is_prefix_of(prefix@, self@),
    {
        if prefix.segments.len() > self.segments.len() {
            return false;
        }
        let n = prefix.segments.len();
        let mut i: usize = 0;
        while i < n
            invariant
                n == prefix@.len() <= self@.len(),
                0 <= i <= n,
                forall|j: int| 0 <= j < i ==> self@[j] == prefix@[j],
            decreases n - i,
        {
            if !bytes_eq(&self.segments[i], &prefix.segments[i]) {
                proof {
                    assert(self@.subrange(0, n as int)[i as int] != prefix@[i as int]);
                }
                return false;
            }
            i = i + 1;
        }
        proof {
            assert(self@.subrange(0, n as int) =~= prefix@);
        }
        true
    }

    /// The components of this path after `prefix`, where `prefix` leads to
    /// it; `None` where it does not.
    pub fn strip_prefix(&self, prefix: &DirPath) -> (r: Option<DirPath>)
        ensures
            is_prefix_of(prefix@, self@) ==> (r matches Some(rest) && rest@ =~= self@.skip(
                prefix@.len() as int,
            )),
            !is_prefix_of(prefix@, self@) ==> r is None,
    {
        if !self.starts_with(prefix) {
            return None;
        }
        let mut rest = DirPath::empty();
        let mut i: usize = prefix.segments.len();
        while i < self.segments.len()
            invariant
                prefix@.len() <= i <= self@.len(),
                i <= self.segments@.len(),
                rest.segments@.len() == i - prefix@.len(),
                rest@ =~= self@.subrange(prefix@.len() as int, i as int),
            decreases self.segments.len() - i,
        {
            let seg = clone_bytes(&self.segments[i]);
            rest.segments.push(seg);
            proof {
                assert(rest@ =~= self@.subrange(prefix@.len() as int, i + 1));
            }
            i = i + 1;
        }
        proof {
            assert(rest@ =~= self@.skip(prefix@.len() as int));
        }
        Some(rest)
    }

    /// A copy of this path without its first component.
    pub fn tail(&self) -> (r: DirPath)
        requires
            self@.len() > 0,
        ensures
            r@ =~= self@.drop_first(),
    {
        let mut rest = DirPath::empty();
        let mut i: usize = 1;
        while i < self.segments.len()
            invariant
                1 <= i <= self@.len(),
                i <= self.segments@.len(),
                rest.segments@.len() == i - 1,
                rest@ =~= self@.subrange(1, i as int),
            decreases self.segments.len() - i,
        {
            let seg = clone_bytes(&self.segments[i]);
            rest.segments.push(seg);
            proof {
                assert(rest@ =~= self@.subrange(1, i + 1));
            }
            i = i + 1;
        }
        proof {
            assert(rest@ =~= self@.drop_first());
        }
        rest
    }

    /// Equality of two paths, component for component.
    pub fn path_eq(&self, other: &DirPath) -> (r: bool)
        ensures
            r == (self@ == other@),
    {
        if self.segments.len() != other.segments.len() {
            proof {
                assert(self@.len() != other@.len());
            }
            return false;
        }
        let n = self.segments.len();
        let mut i: usize = 0;
        while i < n
            invariant
                n == self@.len() == other@.len(),
                0 <= i <= n,
                forall|j: int| 0 <= j < i ==> self@[j] == other@[j],
            decreases n - i,
        {
            if !bytes_eq(&self.segments[i], &other.segments[i]) {
                proof {
                    assert(self@[i as int] != other@[i as int]);
                }
                return false;
            }
            i = i + 1;
        }
        proof {
            assert(self@ =~= other@);
        }
        true
    }

    /// Strict component-wise lexicographic comparison.
    pub fn path_less(&self, other: &DirPath) -> (r: bool)
        ensures
            r == path_lt(self@, other@),
    {
        proof {
            assert(self@.skip(0) =~= self@);
            assert(other@.skip(0) =~= other@);
        }
        path_less_from(self, other, 0)
    }
}

fn path_less_from(a: &DirPath, b: &DirPath, i: usize) -> (r: bool)
    requires
        i <= a@.len(),
        i <= b@.len(),
    ensures
        r == lex_lt(a@.skip(i as int), b@.skip(i as int), seg_lt()),
    decreases a@.len() - i,
{
    proof {
        if i < a@.len() {
            assert(a@.skip(i as int).drop_first() =~= a@.skip(i + 1));
        }
        if i < b@.len() {
            assert(b@.skip(i as int).drop_first() =~= b@.skip(i + 1));
        }
    }
    if i == b.segments.len() {
        false
    } else if i == a.segments.len() {
        true
    } else if bytes_less(&a.segments[i], &b.segments[i]) {
        true
    } else if bytes_less(&b.segments[i], &a.segments[i]) {
        false
    } else {
        proof {
            lemma_bytes_lt_strict_total();
            lemma_lex_lt_connected(a@[i as int], b@[i as int], crate::order::byte_lt());
        }
        path_less_from(a, b, i + 1)
    }
}

/// A copy of a byte vector, equal to its source.
pub fn clone_bytes(v: &Vec<u8>) -> (r: Vec<u8>)
    ensures
        r@ == v@,
{
    let mut out: Vec<u8> = Vec::new();
    let mut i: usize = 0;
    while i < v.len()
        invariant
            0 <= i <= v@.len(),
            out@ =~= v@.subrange(0, i as int),
        decreases v.len() - i,
    {
        out.push(v[i]);
        proof {
            assert(out@ =~= v@.subrange(0, i + 1));
        }
        i = i + 1;
    }
    proof {
        assert(out@ =~= v@);
    }
    out
}

impl Clone for DirPath {
    fn clone(&self) -> (r: Self)
        ensures
            r@ == self@,
    {
        let mut out = DirPath { segments: Vec::new() };
        let mut i: usize = 0;
        while i < self.segments.len()
            invariant
                0 <= i <= self@.len(),
                out.segments@.len() == i,
                out@ =~= self@.subrange(0, i as int),
            decreases self.segments.len() - i,
        {
            out.segments.push(clone_bytes(&self.segments[i]));
            proof {
                assert(out@ =~= self@.subrange(0, i + 1));
            }
            i = i + 1;
        }
        proof {
            assert(out@ =~= self@);
        }
        out
    }
}

} // verus!
