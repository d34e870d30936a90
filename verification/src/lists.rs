//! Keeping some items of a list, and keeping a list in order.

use vstd::prelude::*;

verus! {

/// The items of `s` whose mark is set, in order.
pub open spec fn kept<T>(s: Seq<T>, marks: Seq<bool>) -> Seq<T>
    decreases s.len(),
{
    if s.len() == 0 || s.len() != marks.len() {
        Seq::empty()
    } else {
        let before = kept(s.drop_last(), marks.drop_last());
        if marks.last() {
            before.push(s.last())
        } else {
            before
        }
    }
}

/// Keeps the items whose mark is set.
pub fn keep<T>(items: Vec<T>, marks: &[bool]) -> (r: Vec<T>)
    requires
        items@.len() == marks@.len(),
    ensures
        r@ == kept(items@, marks@),
{
    let mut out: Vec<T> = Vec::new();
    let mut i: usize = 0;
    let ghost all = items@;
    for item in it: items
        invariant
            it.seq() == all,
            i == it.index(),
            all.len() == marks@.len(),
            out@ == kept(all.take(i as int), marks@.take(i as int)),
    {
        assert(all.take(i + 1).drop_last() =~= all.take(i as int));
        assert(marks@.take(i + 1).drop_last() =~= marks@.take(i as int));
        if marks[i] {
            out.push(item);
        }
        i += 1;
    }
    assert(all.take(i as int) =~= all);
    assert(marks@.take(i as int) =~= marks@);
    out
}

/// What is kept was there, under a set mark, and everything under a set mark
/// is kept.
pub proof fn lemma_kept<T>(s: Seq<T>, marks: Seq<bool>)
    requires
        s.len() == marks.len(),
    ensures
        kept(s, marks).len() <= s.len(),
        forall|x: T| #[trigger]
            kept(s, marks).contains(x) <==> exists|i: int|
                0 <= i < s.len() && marks[i] && s[i] == x,
    decreases s.len(),
{
    if s.len() > 0 {
        let t = s.drop_last();
        let m = marks.drop_last();
        lemma_kept(t, m);
        let before = kept(t, m);
        assert forall|x: T| #[trigger] kept(s, marks).contains(x) <==> exists|i: int|
            0 <= i < s.len() && marks[i] && s[i] == x by {
            if kept(s, marks).contains(x) {
                if before.contains(x) {
                    let i = choose|i: int| 0 <= i < t.len() && m[i] && t[i] == x;
                    assert(marks[i] && s[i] == x);
                } else {
                    assert(marks[s.len() - 1] && s[s.len() - 1] == x);
                }
            }
            if exists|i: int| 0 <= i < s.len() && marks[i] && s[i] == x {
                let i = choose|i: int| 0 <= i < s.len() && marks[i] && s[i] == x;
                if i < t.len() {
                    assert(m[i] && t[i] == x);
                    assert(before.contains(x));
                    let k = choose|k: int| 0 <= k < before.len() && before[k] == x;
                    assert(kept(s, marks)[k] == x);
                } else {
                    assert(kept(s, marks)[before.len() as int] == x);
                }
            }
        }
    }
}

/// The items that are there, in order.
pub open spec fn present<T>(found: Seq<Option<T>>) -> Seq<T>
    decreases found.len(),
{
    if found.len() == 0 {
        Seq::empty()
    } else {
        let before = present(found.drop_last());
        match found.last() {
            Some(item) => before.push(item),
            None => before,
        }
    }
}

/// Gathers the items that are there, unless one is missing that must be.
pub fn gather<T>(found: Vec<Option<T>>, must: &[bool]) -> (r: Option<Vec<T>>)
    requires
        found@.len() == must@.len(),
    ensures
        r is None <==> exists|i: int| 0 <= i < found@.len() && #[trigger] must@[i] && found@[i] is None,
        r matches Some(items) ==> items@ == present(found@),
{
    let ghost all = found@;
    let total: usize = found.len();
    let mut out: Vec<T> = Vec::new();
    let mut i: usize = 0;
    for item in it: found
        invariant
            it.seq() == all,
            all.len() == total,
            i == it.index(),
            all.len() == must@.len(),
            out@ == present(all.take(i as int)),
            forall|k: int| 0 <= k < i && #[trigger] must@[k] ==> all[k] is Some,
    {
        assert(all.take(i + 1).drop_last() =~= all.take(i as int));
        match item {
            Some(item) => out.push(item),
            None => {
                if must[i] {
                    assert(must@[i as int] && all[i as int] is None);
                    return None;
                }
            },
        }
        i += 1;
    }
    assert(all.take(i as int) =~= all);
    Some(out)
}

/// A strict total order.
pub trait Ordered: Sized {
    spec fn before(self, other: Self) -> bool;

    fn is_before(&self, other: &Self) -> (r: bool)
        ensures
            r == self.before(*other),
    ;

    proof fn lemma_order(a: Self, b: Self, c: Self)
        ensures
            !a.before(a),
            a.before(b) && b.before(c) ==> a.before(c),
            a == b || a.before(b) || b.before(a),
    ;
}

impl Ordered for u64 {
    open spec fn before(self, other: Self) -> bool {
        self < other
    }

    fn is_before(&self, other: &Self) -> (r: bool) {
        *self < *other
    }

    proof fn lemma_order(a: Self, b: Self, c: Self) {
    }
}

impl Ordered for i32 {
    open spec fn before(self, other: Self) -> bool {
        self < other
    }

    fn is_before(&self, other: &Self) -> (r: bool) {
        *self < *other
    }

    proof fn lemma_order(a: Self, b: Self, c: Self) {
    }
}

/// Whether each item comes before the next, so that none occurs twice.
pub open spec fn ascending<T: Ordered>(s: Seq<T>) -> bool {
    forall|i: int, j: int| 0 <= i < j < s.len() ==> (#[trigger] s[i]).before(#[trigger] s[j])
}

/// Puts an item in its place, unless it is there already.
pub fn insert<T: Ordered>(list: &mut Vec<T>, item: T)
    requires
        ascending(old(list)@),
    ensures
        ascending(final(list)@),
        forall|x: T| #[trigger] final(list)@.contains(x) <==> old(list)@.contains(x) || x == item,
{
    let ghost before = list@;
    let mut at: usize = list.len();
    while at > 0 && item.is_before(&list[at - 1])
        invariant
            at <= list@.len(),
            list@ == before,
            ascending(before),
            forall|k: int| at <= k < before.len() ==> item.before(#[trigger] before[k]),
        decreases at,
    {
        at -= 1;
    }
    proof {
        if at > 0 {
            T::lemma_order(before[at - 1], item, item);
        }
    }
    if at > 0 && !list[at - 1].is_before(&item) {
        assert(before[at - 1] == item);
        return;
    }
    list.insert(at, item);
    assert(list@ =~= before.insert(at as int, item));
    assert forall|i: int, j: int| 0 <= i < j < list@.len() implies (#[trigger] list@[i]).before(
        #[trigger] list@[j],
    ) by {
        if i < at {
            T::lemma_order(before[i], before[at - 1], item);
            if i < at - 1 {
                assert(before[i].before(before[at - 1]));
            }
            if j < at {
                assert(before[i].before(before[j]));
            } else if j > at {
                T::lemma_order(before[i], item, before[j - 1]);
            }
        } else if i > at {
            assert(before[i - 1].before(before[j - 1]));
        }
    }
    assert forall|x: T| #[trigger] list@.contains(x) <==> before.contains(x) || x == item by {
        if before.contains(x) {
            let k = choose|k: int| 0 <= k < before.len() && before[k] == x;
            if k < at {
                assert(list@[k] == x);
            } else {
                assert(list@[k + 1] == x);
            }
        }
        if x == item {
            assert(list@[at as int] == x);
        }
        if list@.contains(x) && x != item {
            let k = choose|k: int| 0 <= k < list@.len() && list@[k] == x;
            if k < at {
                assert(before[k] == x);
            } else {
                assert(before[k - 1] == x);
            }
        }
    }
}

/// Whether a list holds an item.
pub fn holds<T: Ordered>(list: &[T], item: &T) -> (r: bool)
    ensures
        r == list@.contains(*item),
{
    let mut i: usize = 0;
    while i < list.len()
        invariant
            i <= list@.len(),
            forall|k: int| 0 <= k < i ==> list@[k] != *item,
        decreases list@.len() - i,
    {
        proof {
            T::lemma_order(list@[i as int], *item, *item);
        }
        if !list[i].is_before(item) && !item.is_before(&list[i]) {
            assert(list@[i as int] == *item);
            return true;
        }
        i += 1;
    }
    false
}

/// Two ascending lists that hold the same items are the same list.
pub proof fn lemma_ascending_is_unique<T: Ordered>(a: Seq<T>, b: Seq<T>)
    requires
        ascending(a),
        ascending(b),
        forall|x: T| #[trigger] a.contains(x) <==> b.contains(x),
    ensures
        a == b,
    decreases a.len(),
{
    if a.len() == 0 {
        if b.len() > 0 {
            assert(b.contains(b[0]));
            assert(a.contains(b[0]));
        }
    } else {
        assert(a.contains(a.last()));
        assert(b.len() > 0);
        assert(b.contains(b.last()));
        assert(a.contains(b.last()));
        let i = choose|i: int| 0 <= i < b.len() && b[i] == a.last();
        let j = choose|j: int| 0 <= j < a.len() && a[j] == b.last();
        T::lemma_order(a.last(), b.last(), a.last());
        if i < b.len() - 1 && j < a.len() - 1 {
            assert(b[i].before(b[b.len() - 1]));
            assert(a[j].before(a[a.len() - 1]));
        }
        assert(a.last() == b.last());
        let p = a.drop_last();
        let q = b.drop_last();
        assert forall|x: T| #[trigger] p.contains(x) <==> q.contains(x) by {
            if p.contains(x) {
                let k = choose|k: int| 0 <= k < p.len() && p[k] == x;
                assert(a[k].before(a[a.len() - 1]));
                T::lemma_order(x, x, x);
                assert(a[k] == x && x != a.last());
                assert(a.contains(x));
                assert(b.contains(x));
                let m = choose|m: int| 0 <= m < b.len() && b[m] == x;
                assert(q[m] == x);
            }
            if q.contains(x) {
                let k = choose|k: int| 0 <= k < q.len() && q[k] == x;
                assert(b[k].before(b[b.len() - 1]));
                T::lemma_order(x, x, x);
                assert(b[k] == x && x != b.last());
                assert(b.contains(x));
                assert(a.contains(x));
                let m = choose|m: int| 0 <= m < a.len() && a[m] == x;
                assert(p[m] == x);
            }
        }
        lemma_ascending_is_unique(p, q);
        assert(a =~= p.push(a.last()));
        assert(b =~= q.push(b.last()));
    }
}

/// What is kept of lists is what is kept of each, in order, and one item is
/// kept exactly where it is marked.
pub proof fn lemma_kept_in_order<T>(a: Seq<T>, b: Seq<T>, marks_a: Seq<bool>, marks_b: Seq<bool>)
    requires
        a.len() == marks_a.len(),
        b.len() == marks_b.len(),
    ensures
        kept(a + b, marks_a + marks_b) == kept(a, marks_a) + kept(b, marks_b),
        forall|x: T, mark: bool| #[trigger]
            kept(seq![x], seq![mark]) == if mark {
                seq![x]
            } else {
                Seq::empty()
            },
    decreases b.len(),
{
    assert forall|x: T, mark: bool| #[trigger] kept(seq![x], seq![mark]) == if mark {
        seq![x]
    } else {
        Seq::empty()
    } by {
        assert(seq![x].drop_last() =~= Seq::empty());
        assert(seq![mark].drop_last() =~= Seq::empty());
        assert(kept(Seq::<T>::empty(), Seq::empty()) =~= Seq::empty());
        assert(kept(seq![x], seq![mark]) =~= if mark {
            seq![x]
        } else {
            Seq::empty()
        });
    }
    if b.len() == 0 {
        assert(a + b =~= a);
        assert(marks_a + marks_b =~= marks_a);
    } else {
        lemma_kept_in_order(a, b.drop_last(), marks_a, marks_b.drop_last());
        assert((a + b).drop_last() =~= a + b.drop_last());
        assert((marks_a + marks_b).drop_last() =~= marks_a + marks_b.drop_last());
    }
    assert(kept(a + b, marks_a + marks_b) =~= kept(a, marks_a) + kept(b, marks_b));
}

/// What is there of lists is what is there of each, in order.
pub proof fn lemma_present_in_order<T>(a: Seq<Option<T>>, b: Seq<Option<T>>)
    ensures
        present(a + b) == present(a) + present(b),
        forall|x: T| present(#[trigger] seq![Some(x)]) == seq![x],
        present(seq![None::<T>]).len() == 0,
    decreases b.len(),
{
    assert forall|x: T| present(#[trigger] seq![Some(x)]) == seq![x] by {
        assert(seq![Some(x)].drop_last() =~= Seq::empty());
        assert(present(Seq::<Option<T>>::empty()) =~= Seq::empty());
        assert(present(seq![Some(x)]) =~= seq![x]);
    }
    assert(seq![None::<T>].drop_last() =~= Seq::empty());
    assert(present(Seq::<Option<T>>::empty()).len() == 0);
    assert(present(seq![None::<T>]) == present(seq![None::<T>].drop_last()));
    if b.len() == 0 {
        assert(a + b =~= a);
    } else {
        lemma_present_in_order(a, b.drop_last());
        assert((a + b).drop_last() =~= a + b.drop_last());
    }
    assert(present(a + b) =~= present(a) + present(b));
}

} // verus!
