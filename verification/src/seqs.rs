//! Facts about sequences that the proofs of several modules share.

use vstd::prelude::*;

verus! {

/// A sequence with one more element holds what it held and that element.
pub proof fn lemma_push_contains<T>(s: Seq<T>, e: T, x: T)
    ensures
        s.push(e).contains(x) <==> s.contains(x) || x == e,
{
    if s.contains(x) {
        let i = choose|i: int| 0 <= i < s.len() && s[i] == x;
        assert(s.push(e)[i] == x);
    }
    if x == e {
        assert(s.push(e)[s.len() as int] == x);
    }
    if s.push(e).contains(x) {
        let i = choose|i: int| 0 <= i < s.push(e).len() && s.push(e)[i] == x;
        if i < s.len() {
            assert(s[i] == x);
        }
    }
}

/// A concatenation holds what one of its parts holds.
pub proof fn lemma_concat_contains<T>(a: Seq<T>, b: Seq<T>, x: T)
    ensures
        (a + b).contains(x) <==> a.contains(x) || b.contains(x),
{
    if a.contains(x) {
        let i = choose|i: int| 0 <= i < a.len() && a[i] == x;
        assert((a + b)[i] == x);
    }
    if b.contains(x) {
        let i = choose|i: int| 0 <= i < b.len() && b[i] == x;
        assert((a + b)[a.len() + i] == x);
    }
    if (a + b).contains(x) {
        let i = choose|i: int| 0 <= i < (a + b).len() && (a + b)[i] == x;
        if i < a.len() {
            assert(a[i] == x);
        } else {
            assert(b[i - a.len()] == x);
        }
    }
}

/// What a filtering map yields is what it makes of some element.
pub proof fn lemma_filter_map_holds<A, B>(s: Seq<A>, f: spec_fn(A) -> Option<B>, y: B)
    ensures
        s.filter_map(f).contains(y) <==> exists|i: int| 0 <= i < s.len() && f(#[trigger] s[i]) == Some(y),
    decreases s.len(),
{
    if s.len() > 0 {
        let rest = s.drop_last();
        lemma_filter_map_holds(rest, f, y);
        match f(s.last()) {
            Some(z) => {
                lemma_concat_contains(rest.filter_map(f), seq![z], y);
                if seq![z].contains(y) {
                    assert(seq![z][0] == z);
                }
                if z == y {
                    assert(seq![z][0] == y);
                }
            },
            None => {},
        }
        if exists|i: int| 0 <= i < rest.len() && f(#[trigger] rest[i]) == Some(y) {
            let i = choose|i: int| 0 <= i < rest.len() && f(#[trigger] rest[i]) == Some(y);
            assert(s[i] == rest[i]);
        }
        if exists|i: int| 0 <= i < s.len() && f(#[trigger] s[i]) == Some(y) {
            let i = choose|i: int| 0 <= i < s.len() && f(#[trigger] s[i]) == Some(y);
            if i < rest.len() {
                assert(rest[i] == s[i]);
            }
        }
    }
}

/// A filtering map goes through a concatenation part by part.
pub proof fn lemma_filter_map_concat<A, B>(x: Seq<A>, y: Seq<A>, f: spec_fn(A) -> Option<B>)
    ensures
        (x + y).filter_map(f) == x.filter_map(f) + y.filter_map(f),
    decreases y.len(),
{
    if y.len() == 0 {
        assert(x + y =~= x);
        assert(x.filter_map(f) + y.filter_map(f) =~= x.filter_map(f));
    } else {
        let rest = y.drop_last();
        lemma_filter_map_concat(x, rest, f);
        assert((x + y).drop_last() =~= x + rest);
        assert((x + y).last() == y.last());
        match f(y.last()) {
            Some(z) => {
                assert((x.filter_map(f) + rest.filter_map(f)) + seq![z] =~= x.filter_map(f) + (rest.filter_map(f)
                    + seq![z]));
            },
            None => {},
        }
    }
}

} // verus!
