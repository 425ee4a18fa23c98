//! Small facts and helpers about sequences.

use vstd::prelude::*;

verus! {

/// The predicate "differs from `t`".
pub open spec fn differs<A>(t: A) -> spec_fn(A) -> bool {
    |x: A| x != t
}

/// The sequence `s` with every occurrence of `t` left out.
pub open spec fn without<A>(s: Seq<A>, t: A) -> Seq<A> {
    s.filter(differs(t))
}

/// Facts about leaving an element out of a sequence.
pub proof fn lemma_without<A>(s: Seq<A>, t: A)
    ensures
        forall|x: A| #[trigger] without(s, t).contains(x) <==> (s.contains(x) && x != t),
        s.no_duplicates() ==> without(s, t).no_duplicates(),
        !s.contains(t) ==> without(s, t) == s,
        without(s, t).len() <= s.len(),
    decreases s.len(),
{
    if s.len() > 0 {
        let p = s.drop_last();
        let last = s.last();
        lemma_without(p, t);
        assert(s =~= p.push(last));
        p.lemma_filter_push(last, differs(t));
        let wp = without(p, t);
        let ws = without(s, t);
        assert(ws == if last != t { wp.push(last) } else { wp });
        assert forall|x: A| #[trigger] ws.contains(x) <==> (s.contains(x) && x != t) by {
            if s.contains(x) && x != t {
                let i = choose|i: int| 0 <= i < s.len() && s[i] == x;
                if i < s.len() - 1 {
                    assert(p[i] == x);
                    assert(p.contains(x));
                    assert(wp.contains(x));
                    let j = choose|j: int| 0 <= j < wp.len() && wp[j] == x;
                    if last != t {
                        assert(ws[j] == x);
                    }
                } else {
                    assert(x == last);
                    assert(ws[ws.len() - 1] == x);
                }
            }
            if ws.contains(x) {
                let j = choose|j: int| 0 <= j < ws.len() && ws[j] == x;
                if last != t && j == ws.len() - 1 {
                    assert(x == last);
                    assert(s[s.len() - 1] == x);
                } else {
                    assert(wp[j] == x);
                    assert(wp.contains(x));
                    let i = choose|i: int| 0 <= i < p.len() && p[i] == x;
                    assert(s[i] == x);
                }
            }
        }
        if s.no_duplicates() {
            assert forall|i: int, j: int| 0 <= i < p.len() && 0 <= j < p.len() && i != j implies p[i]
                != p[j] by {
                assert(s[i] == p[i] && s[j] == p[j]);
            }
            assert(!wp.contains(last)) by {
                if wp.contains(last) {
                    assert(p.contains(last));
                    let i = choose|i: int| 0 <= i < p.len() && p[i] == last;
                    assert(s[i] == s[s.len() - 1]);
                }
            }
            assert forall|i: int, j: int| 0 <= i < ws.len() && 0 <= j < ws.len() && i != j implies ws[i]
                != ws[j] by {
                if last != t {
                    if i == ws.len() - 1 {
                        assert(wp.contains(wp[j]));
                    } else if j == ws.len() - 1 {
                        assert(wp.contains(wp[i]));
                    }
                }
            }
        }
        if !s.contains(t) {
            assert(!p.contains(t)) by {
                if p.contains(t) {
                    let i = choose|i: int| 0 <= i < p.len() && p[i] == t;
                    assert(s[i] == t);
                }
            }
            assert(last != t) by {
                assert(s[s.len() - 1] == last);
            }
        }
    } else {
        assert(s.filter(differs(t)) =~= s) by {
            reveal(Seq::filter);
        }
    }
}

/// Leaving out an element that occurs once shortens the sequence by one.
pub proof fn lemma_without_once<A>(s: Seq<A>, t: A)
    requires
        s.no_duplicates(),
        s.contains(t),
    ensures
        without(s, t).len() == s.len() - 1,
    decreases s.len(),
{
    let p = s.drop_last();
    let last = s.last();
    assert(s =~= p.push(last));
    p.lemma_filter_push(last, differs(t));
    assert(p.no_duplicates()) by {
        assert forall|i: int, j: int| 0 <= i < p.len() && 0 <= j < p.len() && i != j implies p[i] != p[j] by {
            assert(s[i] == p[i] && s[j] == p[j]);
        }
    }
    if last == t {
        assert(!p.contains(t)) by {
            if p.contains(t) {
                let i = choose|i: int| 0 <= i < p.len() && p[i] == t;
                assert(s[i] == s[s.len() - 1]);
            }
        }
        lemma_without(p, t);
    } else {
        let i = choose|i: int| 0 <= i < s.len() && s[i] == t;
        assert(i < s.len() - 1);
        assert(p[i] == t);
        lemma_without_once(p, t);
    }
}

/// Two sequences that agree on where `p` holds (and on the elements
/// there), the longer one having no further such element, have the same
/// first position of `p`, with the same element.
pub proof fn lemma_first_pos_same<A>(a: Seq<A>, b: Seq<A>, p: spec_fn(A) -> bool)
    requires
        a.len() <= b.len(),
        forall|j: int| 0 <= j < a.len() ==> p(#[trigger] a[j]) == p(b[j]),
        forall|j: int| 0 <= j < a.len() && p(#[trigger] a[j]) ==> a[j] == b[j],
        forall|j: int| a.len() <= j < b.len() ==> !p(#[trigger] b[j]),
    ensures
        first_pos(a, p) == first_pos(b, p),
        first_pos(a, p) >= 0 ==> a[first_pos(a, p)] == b[first_pos(a, p)],
{
    lemma_first_pos(a, p);
    lemma_first_pos(b, p);
    let fa = first_pos(a, p);
    let fb = first_pos(b, p);
    if fa >= 0 {
        assert(p(b[fa]));
        if fb < fa {
            assert(p(a[fb]) == p(b[fb]));
        }
        assert(fb == fa);
    } else {
        if fb >= 0 {
            if fb < a.len() {
                assert(p(a[fb]) == p(b[fb]));
            }
        }
    }
}

/// Whether `v` holds `x`.
pub fn ids_contain(v: &Vec<u32>, x: u32) -> (r: bool)
    ensures
        r == v@.contains(x),
{
    let mut i: usize = 0;
    while i < v.len()
        invariant
            i <= v@.len(),
            forall|j: int| 0 <= j < i ==> v@[j] != x,
        decreases v@.len() - i,
    {
        if v[i] == x {
            assert(v@[i as int] == x);
            return true;
        }
        i = i + 1;
    }
    false
}

/// The ids of `v` other than `x`, in their order.
pub fn ids_without(v: &Vec<u32>, x: u32) -> (r: Vec<u32>)
    ensures
        r@ == without(v@, x),
{
    let mut r: Vec<u32> = Vec::new();
    let mut i: usize = 0;
    while i < v.len()
        invariant
            i <= v@.len(),
            r@ == without(v@.subrange(0, i as int), x),
        decreases v@.len() - i,
    {
        let y = v[i];
        proof {
            assert(v@.subrange(0, i + 1) =~= v@.subrange(0, i as int).push(y));
            v@.subrange(0, i as int).lemma_filter_push(y, differs(x));
        }
        if y != x {
            r.push(y);
        }
        i = i + 1;
    }
    assert(v@.subrange(0, v@.len() as int) =~= v@);
    r
}

/// Filtering with a predicate that holds of every element changes nothing.
pub proof fn lemma_filter_all<A>(s: Seq<A>, p: spec_fn(A) -> bool)
    requires
        forall|i: int| 0 <= i < s.len() ==> p(#[trigger] s[i]),
    ensures
        s.filter(p) == s,
    decreases s.len(),
{
    reveal(Seq::filter);
    if s.len() > 0 {
        let q = s.drop_last();
        assert forall|i: int| 0 <= i < q.len() implies p(#[trigger] q[i]) by {
            assert(s[i] == q[i]);
        }
        lemma_filter_all(q, p);
        assert(p(s[s.len() - 1]));
        assert(s =~= q.push(s.last()));
    } else {
        assert(s.filter(p) =~= s);
    }
}

/// A copy of a sequence of ids.
pub fn copy_ids(v: &Vec<u32>) -> (r: Vec<u32>)
    ensures
        r@ == v@,
{
    let mut r: Vec<u32> = Vec::new();
    let mut i: usize = 0;
    while i < v.len()
        invariant
            i <= v@.len(),
            r@ == v@.subrange(0, i as int),
        decreases v@.len() - i,
    {
        r.push(v[i]);
        i = i + 1;
        assert(r@ =~= v@.subrange(0, i as int));
    }
    assert(r@ =~= v@);
    r
}

/// The position of the first element satisfying `p`, or -1 when none does.
pub open spec fn first_pos<A>(s: Seq<A>, p: spec_fn(A) -> bool) -> int
    decreases s.len(),
{
    if s.len() == 0 {
        -1
    } else if p(s[0]) {
        0
    } else {
        let r = first_pos(s.drop_first(), p);
        if r < 0 {
            -1
        } else {
            r + 1
        }
    }
}

/// What `first_pos` is: -1 exactly when no element satisfies `p`, and
/// otherwise a position whose element does while no earlier one does.
pub proof fn lemma_first_pos<A>(s: Seq<A>, p: spec_fn(A) -> bool)
    ensures
        -1 <= first_pos(s, p) < s.len(),
        first_pos(s, p) == -1 <==> forall|j: int| 0 <= j < s.len() ==> !p(#[trigger] s[j]),
        first_pos(s, p) >= 0 ==> p(s[first_pos(s, p)]),
        forall|j: int| 0 <= j < first_pos(s, p) ==> !p(#[trigger] s[j]),
    decreases s.len(),
{
    if s.len() > 0 && !p(s[0]) {
        let t = s.drop_first();
        lemma_first_pos(t, p);
        assert forall|j: int| 0 <= j < s.len() && first_pos(t, p) == -1 implies !p(#[trigger] s[j]) by {
            if j > 0 {
                assert(s[j] == t[j - 1]);
            }
        }
        assert forall|j: int| 0 <= j < first_pos(s, p) implies !p(#[trigger] s[j]) by {
            if j > 0 {
                assert(s[j] == t[j - 1]);
            }
        }
        if first_pos(t, p) >= 0 {
            assert(s[first_pos(t, p) + 1] == t[first_pos(t, p)]);
        } else {
            assert forall|j: int| 0 <= j < t.len() implies !p(#[trigger] t[j]) by {}
        }
        if forall|j: int| 0 <= j < s.len() ==> !p(#[trigger] s[j]) {
            assert forall|j: int| 0 <= j < t.len() implies !p(#[trigger] t[j]) by {
                assert(t[j] == s[j + 1]);
            }
        }
    }
}

/// The first position of `q` in `s` with `x` appended: that in `s`, else
/// `x`'s own when it satisfies `q`.
pub proof fn lemma_first_pos_push<A>(s: Seq<A>, x: A, q: spec_fn(A) -> bool)
    ensures
        first_pos(s.push(x), q) == if first_pos(s, q) >= 0 {
            first_pos(s, q)
        } else if q(x) {
            s.len() as int
        } else {
            -1
        },
{
    let t = s.push(x);
    lemma_first_pos(s, q);
    lemma_first_pos(t, q);
    let fs = first_pos(s, q);
    let ft = first_pos(t, q);
    if fs >= 0 {
        assert(t[fs] == s[fs]);
        if ft < fs && ft >= 0 {
            assert(t[ft] == s[ft]);
        }
    } else {
        if ft >= 0 && ft < s.len() {
            assert(t[ft] == s[ft]);
        }
        if q(x) {
            assert(t[s.len() as int] == x);
        } else {
            assert forall|j: int| 0 <= j < t.len() implies !q(#[trigger] t[j]) by {
                if j < s.len() {
                    assert(t[j] == s[j]);
                }
            }
        }
    }
}

/// Filtering with `p`, which keeps every element satisfying `q`, keeps the
/// first element satisfying `q`: it is found in both or in neither, and it
/// is the same element.
pub proof fn lemma_first_pos_filter<A>(s: Seq<A>, p: spec_fn(A) -> bool, q: spec_fn(A) -> bool)
    requires
        forall|x: A| #[trigger] q(x) ==> p(x),
    ensures
        (first_pos(s.filter(p), q) >= 0) == (first_pos(s, q) >= 0),
        first_pos(s, q) >= 0 ==> s.filter(p)[first_pos(s.filter(p), q)] == s[first_pos(s, q)],
    decreases s.len(),
{
    if s.len() == 0 {
        assert(s.filter(p) =~= s);
    } else {
        let r = s.drop_last();
        let x = s.last();
        assert(r.push(x) =~= s);
        lemma_first_pos_filter(r, p, q);
        r.lemma_filter_push(x, p);
        lemma_first_pos_push(r, x, q);
        lemma_first_pos(r, q);
        lemma_first_pos(r.filter(p), q);
        if p(x) {
            lemma_first_pos_push(r.filter(p), x, q);
            if first_pos(r, q) >= 0 {
                let k = first_pos(r.filter(p), q);
                assert(r.filter(p).push(x)[k] == r.filter(p)[k]);
                assert(s[first_pos(r, q)] == r[first_pos(r, q)]);
            } else if q(x) {
                assert(r.filter(p).push(x)[r.filter(p).len() as int] == x);
            }
        } else {
            if first_pos(r, q) >= 0 {
                assert(s[first_pos(r, q)] == r[first_pos(r, q)]);
            }
        }
    }
}

/// The first element of `a + b` satisfying `q` is `a`'s first such
/// element when `a` has one, and otherwise one of `b`'s.
pub proof fn lemma_first_pos_concat<A>(a: Seq<A>, b: Seq<A>, q: spec_fn(A) -> bool)
    ensures
        first_pos(a, q) >= 0 ==> first_pos(a + b, q) == first_pos(a, q),
        first_pos(a, q) < 0 && first_pos(a + b, q) >= 0 ==> a.len() <= first_pos(a + b, q)
            && (a + b)[first_pos(a + b, q)] == b[first_pos(a + b, q) - a.len()],
{
    let c = a + b;
    lemma_first_pos(a, q);
    lemma_first_pos(c, q);
    let fa = first_pos(a, q);
    let fc = first_pos(c, q);
    if fa >= 0 {
        assert(c[fa] == a[fa]);
        if 0 <= fc < fa {
            assert(c[fc] == a[fc]);
        }
    } else if fc >= 0 {
        if fc < a.len() {
            assert(c[fc] == a[fc]);
        }
    }
}

} // verus!
