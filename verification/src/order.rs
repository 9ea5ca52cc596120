//! A verified insertion sort, generic over a total preorder. The catalog
//! uses it to order query results (photos by effective timestamp, tags by
//! name, albums by creation time).
use vstd::prelude::*;
use vstd::relations::sorted_by;

verus! {

/// A total preorder on a record type: the comparison the catalog sorts by.
/// Ties are allowed (the relation need not be antisymmetric), so the same
/// machinery serves keys that repeat across records.
pub trait SortOrd: Sized {
    spec fn le_spec(&self, other: &Self) -> bool;

    proof fn lemma_le_total(a: &Self, b: &Self)
        ensures
            a.le_spec(b) || b.le_spec(a),
    ;

    proof fn lemma_le_trans(a: &Self, b: &Self, c: &Self)
        requires
            a.le_spec(b),
            b.le_spec(c),
        ensures
            a.le_spec(c),
    ;
}

/// A `SortOrd` order that can also be decided by executable code.
pub trait SortOrdExec: SortOrd {
    fn le(&self, other: &Self) -> (r: bool)
        ensures
            r == self.le_spec(other),
    ;
}

/// The order of a `SortOrd` type as a binary relation on values.
pub open spec fn le_rel<T: SortOrd>() -> spec_fn(T, T) -> bool {
    |a: T, b: T| a.le_spec(&b)
}

/// Inserts `x` into `s` in front of the first element that does not
/// precede it; on a sorted sequence this keeps the sequence sorted.
pub open spec fn ins_spec<T: SortOrd>(s: Seq<T>, x: T) -> Seq<T>
    decreases s.len(),
{
    if s.len() == 0 {
        seq![x]
    } else if s[0].le_spec(&x) {
        seq![s[0]] + ins_spec(s.drop_first(), x)
    } else {
        seq![x] + s
    }
}

/// Insertion sort of a sequence, one `ins_spec` per element.
pub open spec fn sort_spec<T: SortOrd>(s: Seq<T>) -> Seq<T>
    decreases s.len(),
{
    if s.len() == 0 {
        Seq::empty()
    } else {
        ins_spec(sort_spec(s.drop_last()), s.last())
    }
}

pub proof fn lemma_ins_spec_ensures<T: SortOrd>(s: Seq<T>, x: T)
    requires
        sorted_by(s, le_rel::<T>()),
    ensures
        sorted_by(ins_spec(s, x), le_rel::<T>()),
        ins_spec(s, x).len() == s.len() + 1,
        forall|y: T| #[trigger] ins_spec(s, x).contains(y) <==> (y == x || s.contains(y)),
    decreases s.len(),
{
    let out = ins_spec(s, x);
    if s.len() == 0 {
        assert(out =~= seq![x]);
        assert forall|y: T| out.contains(y) implies (y == x || s.contains(y)) by {
            assert(out[choose|i: int| 0 <= i < out.len() && out[i] == y] == y);
        }
        assert(out.contains(x)) by {
            assert(out[0] == x);
        }
    } else if s[0].le_spec(&x) {
        let rest = s.drop_first();
        assert(sorted_by(rest, le_rel::<T>())) by {
            assert forall|i: int, j: int| 0 <= i < j < rest.len() implies #[trigger] le_rel::<T>()(
                rest[i],
                rest[j],
            ) by {
                assert(le_rel::<T>()(s[i + 1], s[j + 1]));
            }
        }
        lemma_ins_spec_ensures(rest, x);
        let tail = ins_spec(rest, x);
        assert(out =~= seq![s[0]] + tail);
        // The head precedes every element of the inserted tail.
        assert forall|j: int| 0 <= j < tail.len() implies #[trigger] le_rel::<T>()(
            s[0],
            tail[j],
        ) by {
            assert(tail.contains(tail[j]));
            if tail[j] == x {
                assert(s[0].le_spec(&x));
            } else {
                assert(rest.contains(tail[j]));
                let k = choose|k: int| 0 <= k < rest.len() && rest[k] == tail[j];
                assert(le_rel::<T>()(s[0], s[k + 1]));
            }
        }
        assert forall|i: int, j: int| 0 <= i < j < out.len() implies #[trigger] le_rel::<T>()(
            out[i],
            out[j],
        ) by {
            if i == 0 {
                assert(out[j] == tail[j - 1]);
            } else {
                assert(out[i] == tail[i - 1]);
                assert(out[j] == tail[j - 1]);
                assert(le_rel::<T>()(tail[i - 1], tail[j - 1]));
            }
        }
        assert forall|y: T| out.contains(y) implies (y == x || s.contains(y)) by {
            let i = choose|i: int| 0 <= i < out.len() && out[i] == y;
            if i == 0 {
                assert(s.contains(s[0]));
            } else {
                assert(tail.contains(out[i])) by {
                    assert(tail[i - 1] == out[i]);
                }
                if y != x {
                    assert(rest.contains(y));
                    let k = choose|k: int| 0 <= k < rest.len() && rest[k] == y;
                    assert(s[k + 1] == y);
                }
            }
        }
        assert forall|y: T| (y == x || s.contains(y)) implies out.contains(y) by {
            if y == x {
                assert(ins_spec(rest, x).contains(x));
                let k = choose|k: int| 0 <= k < tail.len() && tail[k] == x;
                assert(out[k + 1] == x);
            } else {
                let i = choose|i: int| 0 <= i < s.len() && s[i] == y;
                if i == 0 {
                    assert(out[0] == y);
                } else {
                    assert(rest[i - 1] == y);
                    assert(rest.contains(y));
                    assert(ins_spec(rest, x).contains(y));
                    let k = choose|k: int| 0 <= k < tail.len() && tail[k] == y;
                    assert(out[k + 1] == y);
                }
            }
        }
    } else {
        assert(out =~= seq![x] + s);
        // x precedes the old head, hence everything in s.
        assert(x.le_spec(&s[0])) by {
            T::lemma_le_total(&s[0], &x);
        }
        assert forall|i: int, j: int| 0 <= i < j < out.len() implies #[trigger] le_rel::<T>()(
            out[i],
            out[j],
        ) by {
            if i == 0 {
                if j > 1 {
                    assert(le_rel::<T>()(s[0], s[j - 1]));
                    T::lemma_le_trans(&x, &s[0], &s[j - 1]);
                }
            } else {
                assert(le_rel::<T>()(s[i - 1], s[j - 1]));
            }
        }
        assert forall|y: T| out.contains(y) implies (y == x || s.contains(y)) by {
            let i = choose|i: int| 0 <= i < out.len() && out[i] == y;
            if i > 0 {
                assert(s[i - 1] == y);
            }
        }
        assert forall|y: T| (y == x || s.contains(y)) implies out.contains(y) by {
            if y == x {
                assert(out[0] == y);
            } else {
                let i = choose|i: int| 0 <= i < s.len() && s[i] == y;
                assert(out[i + 1] == y);
            }
        }
    }
}

pub proof fn lemma_sort_spec_ensures<T: SortOrd>(s: Seq<T>)
    ensures
        sorted_by(sort_spec(s), le_rel::<T>()),
        sort_spec(s).len() == s.len(),
        forall|y: T| #[trigger] sort_spec(s).contains(y) <==> s.contains(y),
    decreases s.len(),
{
    if s.len() > 0 {
        let head = s.drop_last();
        lemma_sort_spec_ensures(head);
        lemma_ins_spec_ensures(sort_spec(head), s.last());
        assert(sort_spec(s) == ins_spec(sort_spec(head), s.last()));
        assert forall|y: T| #[trigger] sort_spec(s).contains(y) implies s.contains(y) by {
            assert(ins_spec(sort_spec(head), s.last()).contains(y));
            if y == s.last() {
                assert(s[s.len() - 1] == y);
            } else {
                assert(sort_spec(head).contains(y));
                assert(head.contains(y));
                let i = choose|i: int| 0 <= i < head.len() && head[i] == y;
                assert(head[i] == s.subrange(0, s.len() - 1)[i]);
                assert(s[i] == y);
            }
        }
        assert forall|y: T| s.contains(y) implies #[trigger] sort_spec(s).contains(y) by {
            let i = choose|i: int| 0 <= i < s.len() && s[i] == y;
            if i < s.len() - 1 {
                assert(head[i] == s.subrange(0, s.len() - 1)[i]);
                assert(head[i] == y);
                assert(head.contains(y));
                assert(sort_spec(head).contains(y));
            } else {
                assert(y == s.last());
            }
            assert(ins_spec(sort_spec(head), s.last()).contains(y));
        }
    }
}

/// Inserts `x` into the sorted vector `v`, keeping it sorted; the result is
/// exactly `ins_spec` of the old contents.
pub fn sorted_insert<T: SortOrdExec>(v: &mut Vec<T>, x: T)
    requires
        sorted_by(old(v)@, le_rel::<T>()),
    ensures
        final(v)@ == ins_spec(old(v)@, x),
        sorted_by(final(v)@, le_rel::<T>()),
{
    proof {
        lemma_ins_spec_ensures(old(v)@, x);
    }
    let mut j: usize = 0;
    while j < v.len() && v[j].le(&x)
        invariant
            0 <= j <= v@.len(),
            v@ == old(v)@,
            forall|k: int| 0 <= k < j ==> (#[trigger] v@[k]).le_spec(&x),
        decreases v@.len() - j,
    {
        j = j + 1;
    }
    proof {
        lemma_ins_spec_at(v@, x, j as int);
    }
    v.insert(j, x);
}

/// On a sorted sequence, `ins_spec` lands at the first index whose element
/// does not precede `x`.
proof fn lemma_ins_spec_at<T: SortOrd>(s: Seq<T>, x: T, j: int)
    requires
        0 <= j <= s.len(),
        forall|k: int| 0 <= k < j ==> (#[trigger] s[k]).le_spec(&x),
        j < s.len() ==> !s[j].le_spec(&x),
    ensures
        ins_spec(s, x) == s.subrange(0, j).push(x) + s.subrange(j, s.len() as int),
    decreases s.len(),
{
    if s.len() == 0 {
        assert(ins_spec(s, x) =~= s.subrange(0, j).push(x) + s.subrange(j, s.len() as int));
    } else if j == 0 {
        assert(ins_spec(s, x) =~= seq![x] + s);
        assert(seq![x] + s =~= s.subrange(0, 0).push(x) + s.subrange(0, s.len() as int));
    } else {
        let rest = s.drop_first();
        assert(s[0].le_spec(&x));
        assert forall|k: int| 0 <= k < j - 1 implies (#[trigger] rest[k]).le_spec(&x) by {
            assert(s[k + 1].le_spec(&x));
        }
        if j - 1 < rest.len() {
            assert(rest[j - 1] == s[j]);
        }
        lemma_ins_spec_at(rest, x, j - 1);
        assert(ins_spec(s, x) =~= seq![s[0]] + ins_spec(rest, x));
        assert(seq![s[0]] + (rest.subrange(0, j - 1).push(x) + rest.subrange(
            j - 1,
            rest.len() as int,
        )) =~= s.subrange(0, j).push(x) + s.subrange(j, s.len() as int));
    }
}

/// Mapping a sequence through an order-preserving function commutes with
/// insertion.
pub proof fn lemma_ins_spec_map<T: SortOrd, V: SortOrd>(s: Seq<T>, x: T, f: spec_fn(T) -> V)
    requires
        forall|a: T, b: T| #[trigger] f(a).le_spec(&f(b)) == a.le_spec(&b),
    ensures
        ins_spec(s, x).map_values(f) =~= ins_spec(s.map_values(f), f(x)),
    decreases s.len(),
{
    if s.len() == 0 {
        assert(ins_spec(s, x).map_values(f) =~= seq![f(x)]);
        assert(ins_spec(s.map_values(f), f(x)) =~= seq![f(x)]);
    } else {
        let fs = s.map_values(f);
        assert(fs[0] == f(s[0]));
        assert(fs.drop_first() =~= s.drop_first().map_values(f));
        if s[0].le_spec(&x) {
            lemma_ins_spec_map(s.drop_first(), x, f);
            assert(ins_spec(s, x) == seq![s[0]] + ins_spec(s.drop_first(), x));
            assert((seq![s[0]] + ins_spec(s.drop_first(), x)).map_values(f) =~= seq![f(s[0])]
                + ins_spec(s.drop_first(), x).map_values(f));
        } else {
            assert(ins_spec(s, x) == seq![x] + s);
            assert((seq![x] + s).map_values(f) =~= seq![f(x)] + fs);
        }
    }
}

/// Mapping a sequence through an order-preserving function commutes with
/// sorting.
pub proof fn lemma_sort_spec_map<T: SortOrd, V: SortOrd>(s: Seq<T>, f: spec_fn(T) -> V)
    requires
        forall|a: T, b: T| #[trigger] f(a).le_spec(&f(b)) == a.le_spec(&b),
    ensures
        sort_spec(s).map_values(f) =~= sort_spec(s.map_values(f)),
    decreases s.len(),
{
    if s.len() > 0 {
        let fs = s.map_values(f);
        assert(fs.drop_last() =~= s.drop_last().map_values(f));
        assert(fs.last() == f(s.last()));
        lemma_sort_spec_map(s.drop_last(), f);
        lemma_ins_spec_map(sort_spec(s.drop_last()), s.last(), f);
    }
}

/// Mapping commutes with filtering when the predicates correspond.
pub proof fn lemma_filter_map_commute<T, V>(
    s: Seq<T>,
    f: spec_fn(T) -> V,
    pt: spec_fn(T) -> bool,
    pv: spec_fn(V) -> bool,
)
    requires
        forall|t: T| #[trigger] pv(f(t)) == pt(t),
    ensures
        s.filter(pt).map_values(f) =~= s.map_values(f).filter(pv),
    decreases s.len(),
{
    reveal(Seq::filter);
    if s.len() > 0 {
        let fs = s.map_values(f);
        assert(fs.drop_last() =~= s.drop_last().map_values(f));
        assert(fs.last() == f(s.last()));
        lemma_filter_map_commute(s.drop_last(), f, pt, pv);
        if pt(s.last()) {
            assert(s.filter(pt) == s.drop_last().filter(pt).push(s.last()));
            assert(s.filter(pt).map_values(f) =~= s.drop_last().filter(pt).map_values(f).push(
                f(s.last()),
            ));
        }
    }
}

/// A pairwise property of a sequence survives filtering, and every element
/// of the filtered sequence comes from the original.
pub proof fn lemma_filter_pairwise<T>(
    s: Seq<T>,
    pred: spec_fn(T) -> bool,
    prop: spec_fn(T, T) -> bool,
)
    requires
        forall|i: int, j: int| 0 <= i < j < s.len() ==> #[trigger] prop(s[i], s[j]),
    ensures
        forall|i: int, j: int|
            0 <= i < j < s.filter(pred).len() ==> #[trigger] prop(
                s.filter(pred)[i],
                s.filter(pred)[j],
            ),
        forall|i: int| 0 <= i < s.filter(pred).len() ==> s.contains(#[trigger] s.filter(pred)[i]),
    decreases s.len(),
{
    reveal(Seq::filter);
    if s.len() > 0 {
        let head = s.drop_last();
        assert forall|i: int, j: int| 0 <= i < j < head.len() implies #[trigger] prop(
            head[i],
            head[j],
        ) by {
            assert(prop(s[i], s[j]));
        }
        lemma_filter_pairwise(head, pred, prop);
        let f = s.filter(pred);
        let fh = head.filter(pred);
        assert forall|i: int| 0 <= i < f.len() implies s.contains(#[trigger] f[i]) by {
            if i < fh.len() {
                assert(head.contains(fh[i]));
                let k = choose|k: int| 0 <= k < head.len() && head[k] == fh[i];
                assert(s[k] == f[i]);
            } else {
                assert(f[i] == s.last());
                assert(s[s.len() - 1] == s.last());
            }
        }
        assert forall|i: int, j: int| 0 <= i < j < f.len() implies #[trigger] prop(f[i], f[j]) by {
            if j < fh.len() {
                assert(prop(fh[i], fh[j]));
            } else {
                assert(f[j] == s.last());
                assert(head.contains(fh[i]));
                let k = choose|k: int| 0 <= k < head.len() && head[k] == fh[i];
                assert(prop(s[k], s[s.len() - 1]));
            }
        }
    }
}

/// Filters by predicates that agree on every element are equal.
pub proof fn lemma_filter_equiv<T>(s: Seq<T>, p: spec_fn(T) -> bool, q: spec_fn(T) -> bool)
    requires
        forall|i: int| 0 <= i < s.len() ==> p(#[trigger] s[i]) == q(s[i]),
    ensures
        s.filter(p) == s.filter(q),
    decreases s.len(),
{
    reveal(Seq::filter);
    if s.len() > 0 {
        let head = s.drop_last();
        assert forall|i: int| 0 <= i < head.len() implies p(#[trigger] head[i]) == q(head[i]) by {
            assert(head[i] == s[i]);
        }
        lemma_filter_equiv(head, p, q);
        assert(p(s.last()) == q(s.last()));
    }
}

/// Filtering twice is filtering by the conjunction.
pub proof fn lemma_filter_compose<T>(
    s: Seq<T>,
    p: spec_fn(T) -> bool,
    q: spec_fn(T) -> bool,
    pq: spec_fn(T) -> bool,
)
    requires
        forall|x: T| #[trigger] pq(x) == (p(x) && q(x)),
    ensures
        s.filter(p).filter(q) == s.filter(pq),
    decreases s.len(),
{
    reveal(Seq::filter);
    if s.len() > 0 {
        let head = s.drop_last();
        lemma_filter_compose(head, p, q, pq);
        if p(s.last()) {
            assert(s.filter(p) == head.filter(p).push(s.last()));
            assert(s.filter(p).drop_last() == head.filter(p));
        } else {
            assert(s.filter(p) == head.filter(p));
        }
    }
}

/// Removes from `v` every element that fails the test `f` decides; what
/// stays is exactly the filter of the old contents, in order.
pub fn retain_where<T, F: Fn(&T) -> bool>(v: &mut Vec<T>, f: F, Ghost(pred): Ghost<
    spec_fn(T) -> bool,
>)
    requires
        forall|x: &T| #[trigger] call_requires(f, (x,)),
        forall|x: &T, b: bool| #[trigger] call_ensures(f, (x,), b) ==> b == pred(*x),
    ensures
        final(v)@ == old(v)@.filter(pred),
{
    let ghost orig = v@;
    let mut i: usize = 0;
    let ghost mut c: int = 0;
    proof {
        reveal(Seq::filter);
        assert(orig.subrange(0, 0).filter(pred) =~= Seq::<T>::empty());
        assert(v@ =~= orig.subrange(0, 0).filter(pred) + orig.subrange(0, orig.len() as int));
    }
    while i < v.len()
        invariant
            0 <= i <= c <= orig.len(),
            v@.len() == i + orig.len() - c,
            v@ =~= orig.subrange(0, c).filter(pred) + orig.subrange(c, orig.len() as int),
            i == orig.subrange(0, c).filter(pred).len(),
            forall|x: &T| #[trigger] call_requires(f, (x,)),
            forall|x: &T, b: bool| #[trigger] call_ensures(f, (x,), b) ==> b == pred(*x),
        decreases orig.len() - c,
    {
        let ghost pre = orig.subrange(0, c);
        let ghost post = orig.subrange(0, c + 1);
        proof {
            reveal(Seq::filter);
            assert(post.drop_last() =~= pre);
            assert(post.last() == orig[c]);
            assert(v@[i as int] == orig[c]);
        }
        let keep = f(&v[i]);
        if keep {
            proof {
                assert(post.filter(pred) =~= pre.filter(pred).push(orig[c]));
                assert(v@ =~= post.filter(pred) + orig.subrange(c + 1, orig.len() as int));
            }
            i = i + 1;
        } else {
            let ghost before = v@;
            v.remove(i);
            proof {
                assert(post.filter(pred) =~= pre.filter(pred));
                assert(v@ =~= before.subrange(0, i as int) + before.subrange(
                    i + 1 as int,
                    before.len() as int,
                ));
                assert(v@ =~= post.filter(pred) + orig.subrange(c + 1, orig.len() as int));
            }
        }
        proof {
            c = c + 1;
        }
    }
    proof {
        assert(orig.subrange(0, orig.len() as int) =~= orig);
        assert(orig.subrange(c, orig.len() as int).len() == 0);
        assert(v@ =~= orig.filter(pred));
    }
}

/// Filtering by a predicate that every element satisfies keeps the
/// sequence unchanged.
pub proof fn lemma_filter_all<T>(s: Seq<T>, pred: spec_fn(T) -> bool)
    requires
        forall|i: int| 0 <= i < s.len() ==> pred(#[trigger] s[i]),
    ensures
        s.filter(pred) == s,
    decreases s.len(),
{
    reveal(Seq::filter);
    if s.len() > 0 {
        let head = s.drop_last();
        assert forall|i: int| 0 <= i < head.len() implies pred(#[trigger] head[i]) by {
            assert(head[i] == s[i]);
        }
        lemma_filter_all(head, pred);
        assert(pred(s.last()));
        assert(s.filter(pred) =~= s);
    }
}

pub proof fn lemma_ins_spec_len<T: SortOrd>(s: Seq<T>, x: T)
    ensures
        ins_spec(s, x).len() == s.len() + 1,
    decreases s.len(),
{
    if s.len() > 0 && s[0].le_spec(&x) {
        lemma_ins_spec_len(s.drop_first(), x);
    }
}

/// A pairwise property survives insertion when the new element satisfies
/// it against every existing one.
pub proof fn lemma_ins_pairwise<T: SortOrd>(s: Seq<T>, x: T, prop: spec_fn(T, T) -> bool)
    requires
        forall|i: int, j: int| 0 <= i < j < s.len() ==> #[trigger] prop(s[i], s[j]),
        forall|i: int| 0 <= i < s.len() ==> #[trigger] prop(s[i], x) && prop(x, s[i]),
    ensures
        forall|i: int, j: int|
            0 <= i < j < ins_spec(s, x).len() ==> #[trigger] prop(ins_spec(s, x)[i], ins_spec(s, x)[j]),
        forall|i: int|
            0 <= i < ins_spec(s, x).len() ==> ins_spec(s, x)[i] == x || s.contains(
                #[trigger] ins_spec(s, x)[i],
            ),
    decreases s.len(),
{
    let out = ins_spec(s, x);
    if s.len() == 0 {
        assert(out =~= seq![x]);
    } else if s[0].le_spec(&x) {
        let rest = s.drop_first();
        assert forall|i: int, j: int| 0 <= i < j < rest.len() implies #[trigger] prop(
            rest[i],
            rest[j],
        ) by {
            assert(prop(s[i + 1], s[j + 1]));
        }
        assert forall|i: int| 0 <= i < rest.len() implies #[trigger] prop(rest[i], x) && prop(
            x,
            rest[i],
        ) by {
            assert(prop(s[i + 1], x) && prop(x, s[i + 1]));
        }
        lemma_ins_pairwise(rest, x, prop);
        let tail = ins_spec(rest, x);
        assert(out =~= seq![s[0]] + tail);
        assert forall|i: int| 0 <= i < out.len() implies out[i] == x || s.contains(
            #[trigger] out[i],
        ) by {
            if i == 0 {
                assert(s[0] == out[0]);
            } else {
                assert(out[i] == tail[i - 1]);
                if tail[i - 1] != x {
                    assert(rest.contains(tail[i - 1]));
                    let m = choose|m: int| 0 <= m < rest.len() && rest[m] == tail[i - 1];
                    assert(s[m + 1] == tail[i - 1]);
                }
            }
        }
        assert forall|i: int, j: int| 0 <= i < j < out.len() implies #[trigger] prop(
            out[i],
            out[j],
        ) by {
            if i == 0 {
                assert(out[j] == tail[j - 1]);
                if out[j] == x {
                    assert(prop(s[0], x));
                } else {
                    assert(rest.contains(out[j]) || out[j] == x);
                    if rest.contains(out[j]) {
                        let m = choose|m: int| 0 <= m < rest.len() && rest[m] == out[j];
                        assert(prop(s[0], s[m + 1]));
                    }
                }
            } else {
                assert(out[i] == tail[i - 1]);
                assert(out[j] == tail[j - 1]);
                assert(prop(tail[i - 1], tail[j - 1]));
            }
        }
    } else {
        assert(out =~= seq![x] + s);
        assert forall|i: int, j: int| 0 <= i < j < out.len() implies #[trigger] prop(
            out[i],
            out[j],
        ) by {
            if i == 0 {
                assert(prop(s[j - 1], x) && prop(x, s[j - 1]));
            } else {
                assert(prop(s[i - 1], s[j - 1]));
            }
        }
        assert forall|i: int| 0 <= i < out.len() implies out[i] == x || s.contains(
            #[trigger] out[i],
        ) by {
            if i > 0 {
                assert(s[i - 1] == out[i]);
            }
        }
    }
}

} // verus!
