//! Lists: turning a list round, and lists of texts kept in order.

use vstd::prelude::*;
use crate::order::{
    lemma_text_asymmetric, lemma_text_irreflexive, lemma_text_total, lemma_text_transitive,
    text_compare, text_less, Order,
};
use crate::text::chars_of;

verus! {

/// The items of `v` in the opposite order.
pub fn reversed<T>(v: Vec<T>) -> (out: Vec<T>)
    ensures
        out@.len() == v@.len(),
        forall|i: int| 0 <= i < out@.len() ==> #[trigger] out@[i] == v@[v@.len() - 1 - i],
{
    let mut v = v;
    let ghost all = v@;
    let mut out: Vec<T> = Vec::new();
    while v.len() > 0
        invariant
            v@.len() + out@.len() == all.len(),
            v@ == all.take(v@.len() as int),
            forall|i: int| 0 <= i < out@.len() ==> #[trigger] out@[i] == all[all.len() - 1 - i],
        decreases v@.len(),
    {
        let e = v.pop().unwrap();
        out.push(e);
    }
    out
}


/// The texts are in order, each before the next.
pub open spec fn strictly_sorted(l: Seq<Seq<char>>) -> bool {
    forall|i: int, j: int| 0 <= i < j < l.len() ==> text_less(#[trigger] l[i], #[trigger] l[j])
}

/// `l` holds the items in order, each once.
pub open spec fn is_sorted_set(l: Seq<Seq<char>>, items: Seq<Seq<char>>) -> bool {
    &&& strictly_sorted(l)
    &&& forall|x: Seq<char>| l.contains(x) <==> items.contains(x)
}

/// A text put between what comes before it and what comes after it keeps the
/// list in order, and is all that the list gains.
pub proof fn lemma_insert_text(before: Seq<Seq<char>>, i: int, it: Seq<char>)
    requires
        strictly_sorted(before),
        0 <= i <= before.len(),
        forall|j: int| 0 <= j < i ==> text_less(#[trigger] before[j], it),
        i < before.len() ==> text_less(it, before[i]),
    ensures
        strictly_sorted(before.insert(i, it)),
        forall|x: Seq<char>|
            before.insert(i, it).contains(x) <==> (before.contains(x) || x == it),
{
    let after = before.insert(i, it);
    assert forall|a: int, b: int| 0 <= a < b < after.len() implies text_less(
        #[trigger] after[a],
        #[trigger] after[b],
    ) by {
        if b < i {
        } else if b == i {
        } else if a < i {
            assert(after[b] == before[b - 1]);
        } else if a == i {
            assert(after[b] == before[b - 1]);
            if b - 1 > i {
                lemma_text_transitive(it, before[i], before[b - 1]);
            }
        } else {
            assert(after[a] == before[a - 1] && after[b] == before[b - 1]);
        }
    }
    assert forall|x: Seq<char>| after.contains(x) <==> (before.contains(x) || x == it) by {
        if after.contains(x) {
            let k = choose|k: int| 0 <= k < after.len() && after[k] == x;
            if k < i {
                assert(before[k] == x);
            } else if k > i {
                assert(before[k - 1] == x);
            }
        }
        if before.contains(x) {
            let k = choose|k: int| 0 <= k < before.len() && before[k] == x;
            if k < i {
                assert(after[k] == x);
            } else {
                assert(after[k + 1] == x);
            }
        }
        if x == it {
            assert(after[i] == x);
        }
    }
}

/// Puts a text in its place in the ordered list, unless the list has it.
pub fn insert_text(list: &mut Vec<Vec<char>>, item: Vec<char>)
    requires
        strictly_sorted(chars_of(old(list)@)),
    ensures
        strictly_sorted(chars_of(final(list)@)),
        forall|x: Seq<char>|
            chars_of(final(list)@).contains(x) <==> (chars_of(old(list)@).contains(x) || x
                == item@),
{
    let ghost before = chars_of(list@);
    let ghost it = item@;
    let mut i: usize = 0;
    while i < list.len()
        invariant
            i <= list@.len(),
            chars_of(list@) == before,
            before == chars_of(old(list)@),
            strictly_sorted(before),
            it == item@,
            forall|j: int| 0 <= j < i ==> text_less(#[trigger] before[j], it),
        decreases list@.len() - i,
    {
        assert(before[i as int] == list@[i as int]@);
        match text_compare(&list[i], &item) {
            Order::Less => {},
            Order::Equal => {
                assert(before.contains(it));
                return ;
            },
            Order::Greater => {
                proof {
                    lemma_text_total(before[i as int], it);
                    lemma_insert_text(before, i as int, it);
                }
                list.insert(i, item);
                assert(chars_of(list@) =~= before.insert(i as int, it));
                return ;
            },
        }
        i += 1;
    }
    proof {
        lemma_insert_text(before, i as int, it);
    }
    list.insert(i, item);
    assert(chars_of(list@) =~= before.insert(i as int, it));
}

/// The items in order, each once.
pub open spec fn sorted_set(items: Seq<Seq<char>>) -> Seq<Seq<char>> {
    choose|l: Seq<Seq<char>>| is_sorted_set(l, items)
}

/// In an ordered list a text stands once.
proof fn lemma_sorted_once(l: Seq<Seq<char>>, i: int, j: int)
    requires
        strictly_sorted(l),
        0 <= i < l.len(),
        0 <= j < l.len(),
        l[i] == l[j],
    ensures
        i == j,
{
    lemma_text_irreflexive(l[i]);
    if i < j {
        assert(text_less(l[i], l[j]));
    }
    if j < i {
        assert(text_less(l[j], l[i]));
    }
}

/// Two ordered lists that hold the same texts are the same list.
pub proof fn lemma_sorted_same(a: Seq<Seq<char>>, b: Seq<Seq<char>>)
    requires
        strictly_sorted(a),
        strictly_sorted(b),
        forall|x: Seq<char>| a.contains(x) <==> b.contains(x),
    ensures
        a == b,
    decreases a.len(),
{
    if a.len() == 0 {
        if b.len() > 0 {
            assert(b.contains(b[0]));
        }
        assert(a =~= b);
    } else {
        assert(a.contains(a[0]));
        let j = choose|j: int| 0 <= j < b.len() && b[j] == a[0];
        assert(b.contains(b[0]));
        let i = choose|i: int| 0 <= i < a.len() && a[i] == b[0];
        if j > 0 {
            assert(text_less(b[0], b[j]));
            if i > 0 {
                assert(text_less(a[0], a[i]));
                lemma_text_asymmetric(a[0], a[i]);
            } else {
                lemma_text_irreflexive(a[0]);
            }
        }
        assert(a[0] == b[0]);
        let a1 = a.skip(1);
        let b1 = b.skip(1);
        assert forall|x: int, y: int| 0 <= x < y < a1.len() implies text_less(
            #[trigger] a1[x],
            #[trigger] a1[y],
        ) by {
            assert(a1[x] == a[x + 1] && a1[y] == a[y + 1]);
        }
        assert forall|x: int, y: int| 0 <= x < y < b1.len() implies text_less(
            #[trigger] b1[x],
            #[trigger] b1[y],
        ) by {
            assert(b1[x] == b[x + 1] && b1[y] == b[y + 1]);
        }
        assert forall|x: Seq<char>| a1.contains(x) <==> b1.contains(x) by {
            lemma_skip_holds(a, x);
            lemma_skip_holds(b, x);
        }
        lemma_sorted_same(a1, b1);
        assert(a =~= seq![a[0]] + a1);
        assert(b =~= seq![b[0]] + b1);
    }
}

proof fn lemma_skip_holds(a: Seq<Seq<char>>, x: Seq<char>)
    requires
        strictly_sorted(a),
        a.len() > 0,
    ensures
        a.skip(1).contains(x) <==> (a.contains(x) && x != a[0]),
{
    let a1 = a.skip(1);
    if a1.contains(x) {
        let k = choose|k: int| 0 <= k < a1.len() && a1[k] == x;
        assert(a[k + 1] == x);
        if x == a[0] {
            lemma_sorted_once(a, 0, k + 1);
        }
    }
    if a.contains(x) && x != a[0] {
        let k = choose|k: int| 0 <= k < a.len() && a[k] == x;
        assert(a1[k - 1] == x);
    }
}

/// An ordered list of the items is the ordered set of the items.
pub proof fn lemma_sorted_set(l: Seq<Seq<char>>, items: Seq<Seq<char>>)
    requires
        is_sorted_set(l, items),
    ensures
        l == sorted_set(items),
{
    let m = sorted_set(items);
    assert(is_sorted_set(m, items));
    assert forall|x: Seq<char>| l.contains(x) <==> m.contains(x) by {
        assert(l.contains(x) <==> items.contains(x));
        assert(m.contains(x) <==> items.contains(x));
    }
    lemma_sorted_same(l, m);
}

/// Where a text belongs in an ordered list: the place of the first text that
/// does not come before it, and whether that text is the text itself.
pub fn text_slot(list: &Vec<Vec<char>>, item: &Vec<char>) -> (r: (usize, bool))
    requires
        strictly_sorted(chars_of(list@)),
    ensures
        r.0 <= list@.len(),
        forall|j: int| 0 <= j < r.0 ==> text_less(#[trigger] chars_of(list@)[j], item@),
        r.1 ==> r.0 < list@.len() && list@[r.0 as int]@ == item@,
        !r.1 && r.0 < list@.len() ==> text_less(item@, list@[r.0 as int]@),
        r.1 == chars_of(list@).contains(item@),
{
    let ghost keys = chars_of(list@);
    let mut i: usize = 0;
    while i < list.len()
        invariant
            i <= list@.len(),
            keys == chars_of(list@),
            strictly_sorted(keys),
            forall|j: int| 0 <= j < i ==> text_less(#[trigger] keys[j], item@),
        decreases list@.len() - i,
    {
        assert(keys[i as int] == list@[i as int]@);
        match text_compare(&list[i], item) {
            Order::Less => {},
            Order::Equal => {
                assert(keys.contains(item@));
                return (i, true);
            },
            Order::Greater => {
                proof {
                    lemma_text_total(keys[i as int], item@);
                    if keys.contains(item@) {
                        let k = choose|k: int| 0 <= k < keys.len() && keys[k] == item@;
                        lemma_text_irreflexive(item@);
                        if k > i {
                            assert(text_less(keys[i as int], keys[k]));
                            lemma_text_asymmetric(keys[i as int], keys[k]);
                        }
                    }
                }
                return (i, false);
            },
        }
        i += 1;
    }
    proof {
        if keys.contains(item@) {
            let k = choose|k: int| 0 <= k < keys.len() && keys[k] == item@;
            lemma_text_irreflexive(item@);
        }
    }
    (i, false)
}

} // verus!
