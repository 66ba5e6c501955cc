//! Byte-level orderings used for path comparison and tree sorting.
//!
//! Paths are held as sequences of byte segments, so every ordering the
//! crate needs reduces to a lexicographic order over sequences. The order
//! is defined generically over a strict order on the elements, with the
//! lemmas (asymmetry, connectedness, transitivity) proved once.

use vstd::prelude::*;

verus! {

/// A strict order `lt` that is asymmetric, connected and transitive.
pub open spec fn strict_total<T>(lt: spec_fn(T, T) -> bool) -> bool {
    &&& forall|x: T, y: T| #[trigger] lt(x, y) ==> !lt(y, x)
    &&& forall|x: T, y: T| !#[trigger] lt(x, y) && !lt(y, x) ==> x == y
    &&& forall|x: T, y: T, z: T| #[trigger] lt(x, y) && #[trigger] lt(y, z) ==> lt(x, z)
}

/// Lexicographic strict order over sequences, given a strict order on
/// elements. A strict prefix is smaller than the longer sequence.
pub open spec fn lex_lt<T>(a: Seq<T>, b: Seq<T>, lt: spec_fn(T, T) -> bool) -> bool
    decreases a.len(),
{
    if b.len() == 0 {
        false
    } else if a.len() == 0 {
        true
    } else if lt(a[0], b[0]) {
        true
    } else if lt(b[0], a[0]) {
        false
    } else {
        lex_lt(a.drop_first(), b.drop_first(), lt)
    }
}

pub proof fn lemma_lex_lt_asym<T>(a: Seq<T>, b: Seq<T>, lt: spec_fn(T, T) -> bool)
    requires
        strict_total(lt),
        lex_lt(a, b, lt),
    ensures
        !lex_lt(b, a, lt),
    decreases a.len(),
{
    if b.len() == 0 {
    } else if a.len() == 0 {
    } else if lt(a[0], b[0]) {
    } else if lt(b[0], a[0]) {
    } else {
        lemma_lex_lt_asym(a.drop_first(), b.drop_first(), lt);
    }
}

pub proof fn lemma_lex_lt_connected<T>(a: Seq<T>, b: Seq<T>, lt: spec_fn(T, T) -> bool)
    requires
        strict_total(lt),
        !lex_lt(a, b, lt),
        !lex_lt(b, a, lt),
    ensures
        a == b,
    decreases a.len(),
{
    if b.len() == 0 {
        assert(a.len() == 0);
        assert(a =~= b);
    } else if a.len() == 0 {
    } else {
        assert(a[0] == b[0]);
        lemma_lex_lt_connected(a.drop_first(), b.drop_first(), lt);
        assert(a =~= b) by {
            assert(forall|i: int|
                1 <= i < a.len() ==> a[i] == a.drop_first()[i - 1] && b[i] == b.drop_first()[i
                    - 1]);
        }
    }
}

pub proof fn lemma_lex_lt_trans<T>(a: Seq<T>, b: Seq<T>, c: Seq<T>, lt: spec_fn(T, T) -> bool)
    requires
        strict_total(lt),
        lex_lt(a, b, lt),
        lex_lt(b, c, lt),
    ensures
        lex_lt(a, c, lt),
    decreases a.len(),
{
    if c.len() == 0 {
    } else if b.len() == 0 {
    } else if a.len() == 0 {
    } else {
        if lt(a[0], b[0]) {
            if lt(b[0], c[0]) {
            } else if lt(c[0], b[0]) {
            } else {
                assert(b[0] == c[0]);
            }
        } else if lt(b[0], a[0]) {
        } else {
            assert(a[0] == b[0]);
            if lt(b[0], c[0]) {
            } else if lt(c[0], b[0]) {
            } else {
                assert(b[0] == c[0]);
                lemma_lex_lt_trans(a.drop_first(), b.drop_first(), c.drop_first(), lt);
            }
        }
    }
}

/// The strict order on bytes used for path segments.
pub open spec fn byte_lt() -> spec_fn(u8, u8) -> bool {
    |x: u8, y: u8| x < y
}

pub proof fn lemma_byte_lt_strict_total()
    ensures
        strict_total(byte_lt()),
{
}

/// Strict lexicographic order on byte sequences.
pub open spec fn bytes_lt(a: Seq<u8>, b: Seq<u8>) -> bool {
    lex_lt(a, b, byte_lt())
}

pub proof fn lemma_bytes_lt_strict_total()
    ensures
        strict_total(|a: Seq<u8>, b: Seq<u8>| bytes_lt(a, b)),
{
    let blt = |a: Seq<u8>, b: Seq<u8>| bytes_lt(a, b);
    lemma_byte_lt_strict_total();
    assert forall|x: Seq<u8>, y: Seq<u8>| #[trigger] blt(x, y) implies !blt(y, x) by {
        lemma_lex_lt_asym(x, y, byte_lt());
    }
    assert forall|x: Seq<u8>, y: Seq<u8>| !#[trigger] blt(x, y) && !blt(y, x) implies x == y by {
        lemma_lex_lt_connected(x, y, byte_lt());
    }
    assert forall|x: Seq<u8>, y: Seq<u8>, z: Seq<u8>|
        #[trigger] blt(x, y) && #[trigger] blt(y, z) implies blt(x, z) by {
        lemma_lex_lt_trans(x, y, z, byte_lt());
    }
}

/// Equality of two byte vectors.
pub fn bytes_eq(a: &Vec<u8>, b: &Vec<u8>) -> (r: bool)
    ensures
        r == (a@ == b@),
{
    if a.len() != b.len() {
        return false;
    }
    let n = a.len();
    let mut i: usize = 0;
    while i < n
        invariant
            n == a.len() == b.len(),
            0 <= i <= n,
            forall|j: int| 0 <= j < i ==> a@[j] == b@[j],
        decreases n - i,
    {
        if a[i] != b[i] {
            return false;
        }
        i = i + 1;
    }
    proof {
        assert(a@ =~= b@);
    }
    true
}

fn bytes_less_from(a: &Vec<u8>, b: &Vec<u8>, i: usize) -> (r: bool)
    requires
        i <= a.len(),
        i <= b.len(),
    ensures
        r == bytes_lt(a@.skip(i as int), b@.skip(i as int)),
    decreases a.len() - i,
{
    proof {
        if i < a.len() {
            assert(a@.skip(i as int).drop_first() =~= a@.skip(i + 1));
        }
        if i < b.len() {
            assert(b@.skip(i as int).drop_first() =~= b@.skip(i + 1));
        }
    }
    if i == b.len() {
        false
    } else if i == a.len() {
        true
    } else if a[i] < b[i] {
        true
    } else if b[i] < a[i] {
        false
    } else {
        bytes_less_from(a, b, i + 1)
    }
}

/// Strict lexicographic comparison of two byte vectors.
pub fn bytes_less(a: &Vec<u8>, b: &Vec<u8>) -> (r: bool)
    ensures
        r == bytes_lt(a@, b@),
{
    proof {
        assert(a@.skip(0) =~= a@);
        assert(b@.skip(0) =~= b@);
    }
    bytes_less_from(a, b, 0)
}

/// ASCII lower-casing of one byte; other bytes are kept as they are.
pub open spec fn lower_byte(c: u8) -> u8 {
    if 65 <= c <= 90 {
        (c + 32) as u8
    } else {
        c
    }
}

/// ASCII lower-casing of a byte sequence.
pub open spec fn lower_bytes(s: Seq<u8>) -> Seq<u8> {
    s.map_values(|c: u8| lower_byte(c))
}

/// Executable ASCII lower-casing of one byte.
pub fn lower_byte_exec(c: u8) -> (r: u8)
    ensures
        r == lower_byte(c),
{
    if 65 <= c && c <= 90 {
        c + 32
    } else {
        c
    }
}

fn ci_less_from(a: &Vec<u8>, b: &Vec<u8>, i: usize) -> (r: bool)
    requires
        i <= a.len(),
        i <= b.len(),
    ensures
        r == bytes_lt(lower_bytes(a@).skip(i as int), lower_bytes(b@).skip(i as int)),
    decreases a.len() - i,
{
    proof {
        if i < a.len() {
            assert(lower_bytes(a@).skip(i as int).drop_first() =~= lower_bytes(a@).skip(i + 1));
        }
        if i < b.len() {
            assert(lower_bytes(b@).skip(i as int).drop_first() =~= lower_bytes(b@).skip(i + 1));
        }
    }
    if i == b.len() {
        false
    } else if i == a.len() {
        true
    } else {
        let la = lower_byte_exec(a[i]);
        let lb = lower_byte_exec(b[i]);
        if la < lb {
            true
        } else if lb < la {
            false
        } else {
            ci_less_from(a, b, i + 1)
        }
    }
}

/// Case-insensitive (ASCII) strict lexicographic comparison.
pub fn ci_less(a: &Vec<u8>, b: &Vec<u8>) -> (r: bool)
    ensures
        r == bytes_lt(lower_bytes(a@), lower_bytes(b@)),
{
    proof {
        assert(lower_bytes(a@).skip(0) =~= lower_bytes(a@));
        assert(lower_bytes(b@).skip(0) =~= lower_bytes(b@));
    }
    ci_less_from(a, b, 0)
}

} // verus!
