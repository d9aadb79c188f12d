//! Ordering by name, and a stable sort by name.
//!
//! Names compare as `String` and `Option<String>` do in Rust: character by
//! character by code point (the order of their UTF-8 bytes), a proper prefix
//! first, and a missing name before any name.

use vstd::prelude::*;

use crate::text::chars_of;

verus! {

broadcast use vstd::seq_lib::group_seq_properties;

/// `a` comes strictly before `b`.
pub open spec fn chars_lt(a: Seq<char>, b: Seq<char>) -> bool
    decreases a.len(),
{
    if b.len() == 0 {
        false
    } else if a.len() == 0 {
        true
    } else if a[0] != b[0] {
        (a[0] as u32) < (b[0] as u32)
    } else {
        chars_lt(a.drop_first(), b.drop_first())
    }
}

/// Name `a` comes strictly before name `b`; no name comes first.
pub open spec fn name_lt(a: Option<Seq<char>>, b: Option<Seq<char>>) -> bool {
    match (a, b) {
        (None, Some(_)) => true,
        (Some(x), Some(y)) => chars_lt(x, y),
        _ => false,
    }
}

proof fn lemma_chars_lt_irreflexive(a: Seq<char>)
    ensures
        !chars_lt(a, a),
    decreases a.len(),
{
    if a.len() > 0 {
        lemma_chars_lt_irreflexive(a.drop_first());
    }
}

proof fn lemma_chars_lt_transitive(a: Seq<char>, b: Seq<char>, c: Seq<char>)
    requires
        chars_lt(a, b),
        chars_lt(b, c),
    ensures
        chars_lt(a, c),
    decreases a.len(),
{
    if a.len() > 0 && b.len() > 0 && c.len() > 0 {
        if a[0] == b[0] && b[0] == c[0] {
            lemma_chars_lt_transitive(a.drop_first(), b.drop_first(), c.drop_first());
        }
    }
}

proof fn lemma_chars_lt_total(a: Seq<char>, b: Seq<char>)
    requires
        a != b,
    ensures
        chars_lt(a, b) || chars_lt(b, a),
    decreases a.len(),
{
    if a.len() > 0 && b.len() > 0 && a[0] == b[0] {
        if a.drop_first() == b.drop_first() {
            assert(a =~= seq![a[0]] + a.drop_first());
            assert(b =~= seq![b[0]] + b.drop_first());
        }
        lemma_chars_lt_total(a.drop_first(), b.drop_first());
    } else if a.len() > 0 && b.len() > 0 {
        broadcast use vstd::utf8::char_u32_cast;

        assert((a[0] as u32) != (b[0] as u32)) by {
            if (a[0] as u32) == (b[0] as u32) {
                vstd::utf8::char_u32_cast(a[0], a[0] as u32);
                vstd::utf8::char_u32_cast(b[0], b[0] as u32);
            }
        }
    } else if a.len() == 0 && b.len() == 0 {
        assert(a =~= b);
    }
}

/// Names are strictly ordered: never before themselves, transitively, and
/// any two different names one way or the other.
pub proof fn lemma_name_order(a: Option<Seq<char>>, b: Option<Seq<char>>, c: Option<Seq<char>>)
    ensures
        !name_lt(a, a),
        name_lt(a, b) && name_lt(b, c) ==> name_lt(a, c),
        a != b ==> name_lt(a, b) || name_lt(b, a),
{
    if let Some(x) = a {
        lemma_chars_lt_irreflexive(x);
    }
    if name_lt(a, b) && name_lt(b, c) {
        match (a, b, c) {
            (Some(x), Some(y), Some(z)) => lemma_chars_lt_transitive(x, y, z),
            _ => {},
        }
    }
    if a != b {
        match (a, b) {
            (Some(x), Some(y)) => lemma_chars_lt_total(x, y),
            _ => {},
        }
    }
}

/// Whether `a` comes strictly before `b`.
pub fn chars_less(a: &Vec<char>, b: &Vec<char>) -> (r: bool)
    ensures
        r == chars_lt(a@, b@),
{
    let mut i: usize = 0;
    while i < a.len() && i < b.len() && a[i] == b[i]
        invariant
            i <= a@.len(),
            i <= b@.len(),
            chars_lt(a@, b@) == chars_lt(a@.skip(i as int), b@.skip(i as int)),
        decreases a@.len() - i,
    {
        assert(a@.skip(i as int).drop_first() =~= a@.skip(i + 1));
        assert(b@.skip(i as int).drop_first() =~= b@.skip(i + 1));
        i = i + 1;
    }
    assert(a@.skip(0) =~= a@);
    assert(b@.skip(0) =~= b@);
    if i == b.len() {
        false
    } else if i == a.len() {
        true
    } else {
        assert(a@.skip(i as int)[0] == a@[i as int]);
        assert(b@.skip(i as int)[0] == b@[i as int]);
        (a[i] as u32) < (b[i] as u32)
    }
}

/// Whether name `a` comes strictly before name `b`.
pub fn name_less(a: Option<&String>, b: Option<&String>) -> (r: bool)
    ensures
        r == name_lt(
            match a {
                Some(s) => Some(s@),
                None => None,
            },
            match b {
                Some(s) => Some(s@),
                None => None,
            },
        ),
{
    match (a, b) {
        (None, Some(_)) => true,
        (Some(x), Some(y)) => {
            let xc = chars_of(x.as_str());
            let yc = chars_of(y.as_str());
            chars_less(&xc, &yc)
        },
        _ => false,
    }
}

/// Values that sort by an optional name.
pub trait Named: View + Sized {
    /// The name of a value, if it has one.
    spec fn name_of(v: Self::V) -> Option<Seq<char>>;

    /// The name of this value.
    fn name(&self) -> (r: Option<&String>)
        ensures
            Self::name_of(self@) == match r {
                Some(s) => Some(s@),
                None => None,
            };
}

/// The values of `s` whose name is `k`, in order.
pub open spec fn with_name<V>(s: Seq<V>, name: spec_fn(V) -> Option<Seq<char>>, k: Option<Seq<char>>) -> Seq<V> {
    s.filter(has_name(name, k))
}

/// Whether a value's name is `k`.
pub open spec fn has_name<V>(name: spec_fn(V) -> Option<Seq<char>>, k: Option<Seq<char>>) -> spec_fn(V) -> bool {
    |x: V| name(x) == k
}

/// `r` is `v` sorted by name, keeping the order of equal names: the names
/// never decrease, and for each name the values carrying it come in the same
/// order as in `v`.
pub open spec fn stable_sorted_by_name<V>(
    r: Seq<V>,
    v: Seq<V>,
    name: spec_fn(V) -> Option<Seq<char>>,
) -> bool {
    &&& r.len() == v.len()
    &&& forall|i: int, j: int| 0 <= i < j < r.len() ==> !name_lt(#[trigger] name(r[j]), #[trigger] name(r[i]))
    &&& forall|k: Option<Seq<char>>| #[trigger] with_name(r, name, k) == with_name(v, name, k)
}

/// The views of the values of `v`.
pub open spec fn views<T: View>(v: Seq<T>) -> Seq<T::V> {
    v.map_values(|t: T| t@)
}

proof fn lemma_filter_none<V>(s: Seq<V>, p: spec_fn(V) -> bool)
    requires
        forall|i: int| 0 <= i < s.len() ==> !p(s[i]),
    ensures
        s.filter(p) == Seq::<V>::empty(),
{
    s.lemma_all_neg_filter_empty(p);
    assert(s.filter(p) =~= Seq::<V>::empty());
}

/// Inserting `x` where it keeps the order adds it behind the values of its
/// own name and leaves the other names' values alone.
proof fn lemma_insert_filter<V>(r: Seq<V>, p: int, x: V, name: spec_fn(V) -> Option<Seq<char>>, k: Option<Seq<char>>)
    requires
        0 <= p <= r.len(),
        forall|q: int| p <= q < r.len() ==> name_lt(name(x), #[trigger] name(r[q])),
    ensures
        with_name(r.insert(p, x), name, k) == if name(x) == k {
            with_name(r, name, k).push(x)
        } else {
            with_name(r, name, k)
        },
{
    let f = has_name(name, k);
    let a = r.take(p);
    let b = r.skip(p);
    assert(r =~= a + b);
    assert(r.insert(p, x) =~= a + seq![x] + b);
    Seq::filter_distributes_over_add(a + seq![x], b, f);
    Seq::filter_distributes_over_add(a, seq![x], f);
    Seq::filter_distributes_over_add(a, b, f);
    assert(seq![x] =~= Seq::<V>::empty().push(x));
    Seq::<V>::empty().lemma_filter_push(x, f);
    assert(Seq::<V>::empty().filter(f) =~= Seq::<V>::empty());
    if name(x) == k {
        assert forall|i: int| 0 <= i < b.len() implies !f(b[i]) by {
            assert(b[i] == r[p + i]);
            lemma_name_order(name(x), name(x), name(x));
        }
        lemma_filter_none(b, f);
        assert(a.filter(f) + seq![x].filter(f) + b.filter(f) =~= (a.filter(f) + b.filter(f)).push(x));
    } else {
        assert(a.filter(f) + seq![x].filter(f) + b.filter(f) =~= a.filter(f) + b.filter(f));
    }
}

/// Sorts `v` by name, keeping the order of values with equal names.
pub fn sort_by_name<T: Named>(v: Vec<T>) -> (r: Vec<T>)
    ensures
        stable_sorted_by_name(views(r@), views(v@), |x: T::V| T::name_of(x)),
{
    let ghost name = |x: T::V| T::name_of(x);
    let ghost orig = views(v@);
    let mut v = v;
    let mut r: Vec<T> = Vec::new();
    let ghost mut done: int = 0;
    assert(views(r@) =~= Seq::<T::V>::empty());
    assert(orig.take(0) =~= Seq::<T::V>::empty());
    assert(views(v@) =~= orig.skip(0));
    while v.len() > 0
        invariant
            name == (|x: T::V| T::name_of(x)),
            0 <= done <= orig.len(),
            views(v@) == orig.skip(done),
            views(r@).len() == done,
            forall|i: int, j: int|
                0 <= i < j < views(r@).len() ==> !name_lt(
                    #[trigger] name(views(r@)[j]),
                    #[trigger] name(views(r@)[i]),
                ),
            forall|k: Option<Seq<char>>|
                #[trigger] with_name(views(r@), name, k) == with_name(orig.take(done), name, k),
        decreases v@.len(),
    {
        let ghost before = v@;
        assert(views(before).len() == before.len());
        assert(done < orig.len());
        assert(views(before)[0] == before[0]@);
        assert(orig.skip(done)[0] == orig[done]);
        let x = v.remove(0);
        let ghost xv = x@;
        assert(xv == orig[done]);
        assert(v@ =~= before.subrange(1, before.len() as int));
        assert(views(v@) =~= orig.skip(done + 1));
        let mut p: usize = 0;
        let ghost rv = views(r@);
        while p < r.len() && !name_less(x.name(), r[p].name())
            invariant
                name == (|x: T::V| T::name_of(x)),
                rv == views(r@),
                p <= rv.len(),
                xv == x@,
                forall|q: int| 0 <= q < p ==> !name_lt(name(xv), #[trigger] name(rv[q])),
            decreases rv.len() - p,
        {
            assert(rv[p as int] == r@[p as int]@);
            p = p + 1;
        }
        proof {
            assert forall|q: int| p <= q < rv.len() implies name_lt(name(xv), #[trigger] name(rv[q])) by {
                if q > p {
                    let a = name(xv);
                    let b = name(rv[p as int]);
                    let c = name(rv[q]);
                    lemma_name_order(a, b, c);
                    lemma_name_order(b, c, a);
                    if b != c {
                        lemma_name_order(c, b, a);
                    }
                }
            }
            assert forall|k: Option<Seq<char>>|
                #[trigger] with_name(rv.insert(p as int, xv), name, k) == with_name(orig.take(done + 1), name, k) by {
                lemma_insert_filter(rv, p as int, xv, name, k);
                assert(orig.take(done + 1) =~= orig.take(done).push(xv));
                orig.take(done).lemma_filter_push(xv, has_name(name, k));
                assert(with_name(rv, name, k) == with_name(orig.take(done), name, k));
            }
        }
        r.insert(p, x);
        assert(views(r@) =~= rv.insert(p as int, xv));
        proof {
            assert forall|i: int, j: int|
                0 <= i < j < views(r@).len() implies !name_lt(
                    #[trigger] name(views(r@)[j]),
                    #[trigger] name(views(r@)[i]),
                ) by {
                let s = views(r@);
                if i < p && j < p {
                    assert(s[i] == rv[i] && s[j] == rv[j]);
                } else if i < p && j == p {
                    assert(s[i] == rv[i] && s[j] == xv);
                } else if i < p && j > p {
                    assert(s[i] == rv[i] && s[j] == rv[j - 1]);
                } else if i == p {
                    assert(s[i] == xv && s[j] == rv[j - 1]);
                    lemma_name_order(name(xv), name(rv[j - 1]), name(xv));
                } else {
                    assert(s[i] == rv[i - 1] && s[j] == rv[j - 1]);
                }
            }
        }
        proof {
            done = done + 1;
        }
    }
    assert(orig.take(done) =~= orig);
    r
}

} // verus!
