//! The order of sequences: item by item, a proper prefix first.

use vstd::prelude::*;

verus! {

/// How one value stands to another in an order.
#[derive(Clone, Copy, Debug, PartialEq, Eq, Structural)]
pub enum Order {
    /// It comes first.
    Less,
    /// They are the same.
    Equal,
    /// It comes last.
    Greater,
}

/// Whether `a` comes before `b`: at the first place where they differ `a` has
/// the lesser item, or `a` ends there and `b` goes on.
pub open spec fn lex_less<T>(a: Seq<T>, b: Seq<T>, lt: spec_fn(T, T) -> bool) -> bool
    decreases a.len(),
{
    if b.len() == 0 {
        false
    } else if a.len() == 0 {
        true
    } else if a[0] != b[0] {
        lt(a[0], b[0])
    } else {
        lex_less(a.drop_first(), b.drop_first(), lt)
    }
}

/// `lt` orders the items: no item is less than itself, of two different
/// items one is less than the other and not the other way round, and less
/// is transitive.
pub open spec fn strict_total<T>(lt: spec_fn(T, T) -> bool) -> bool {
    &&& forall|x: T| !#[trigger] lt(x, x)
    &&& forall|x: T, y: T| x != y ==> #[trigger] lt(x, y) || lt(y, x)
    &&& forall|x: T, y: T| #[trigger] lt(x, y) ==> !lt(y, x)
    &&& forall|x: T, y: T, z: T| #[trigger] lt(x, y) && #[trigger] lt(y, z) ==> lt(x, z)
}

/// No sequence comes before itself.
pub proof fn lemma_lex_irreflexive<T>(a: Seq<T>, lt: spec_fn(T, T) -> bool)
    ensures
        !lex_less(a, a, lt),
    decreases a.len(),
{
    if a.len() > 0 {
        lemma_lex_irreflexive(a.drop_first(), lt);
    }
}

/// Of two different sequences one comes before the other.
pub proof fn lemma_lex_total<T>(a: Seq<T>, b: Seq<T>, lt: spec_fn(T, T) -> bool)
    requires
        strict_total(lt),
    ensures
        a == b || lex_less(a, b, lt) || lex_less(b, a, lt),
    decreases a.len(),
{
    if a.len() == 0 || b.len() == 0 {
        if a.len() == 0 && b.len() == 0 {
            assert(a =~= b);
        }
    } else if a[0] == b[0] {
        lemma_lex_total(a.drop_first(), b.drop_first(), lt);
        if a.drop_first() == b.drop_first() {
            assert(a =~= seq![a[0]] + a.drop_first());
            assert(b =~= seq![b[0]] + b.drop_first());
        }
    } else {
        assert(lt(a[0], b[0]) || lt(b[0], a[0]));
    }
}

/// Two sequences do not each come before the other.
pub proof fn lemma_lex_asymmetric<T>(a: Seq<T>, b: Seq<T>, lt: spec_fn(T, T) -> bool)
    requires
        strict_total(lt),
        lex_less(a, b, lt),
    ensures
        !lex_less(b, a, lt),
    decreases a.len(),
{
    if a.len() > 0 && b.len() > 0 {
        if a[0] == b[0] {
            lemma_lex_asymmetric(a.drop_first(), b.drop_first(), lt);
        } else {
            assert(lt(a[0], b[0]));
        }
    }
}

/// Before is transitive.
pub proof fn lemma_lex_transitive<T>(a: Seq<T>, b: Seq<T>, c: Seq<T>, lt: spec_fn(T, T) -> bool)
    requires
        strict_total(lt),
        lex_less(a, b, lt),
        lex_less(b, c, lt),
    ensures
        lex_less(a, c, lt),
    decreases a.len(),
{
    if a.len() > 0 && b.len() > 0 && c.len() > 0 {
        if a[0] == b[0] && b[0] == c[0] {
            lemma_lex_transitive(a.drop_first(), b.drop_first(), c.drop_first(), lt);
        } else if a[0] != b[0] && b[0] != c[0] {
            assert(lt(a[0], b[0]) && lt(b[0], c[0]));
            assert(lt(a[0], c[0]));
            if a[0] == c[0] {
                assert(!lt(b[0], a[0]));
            }
        }
    }
}

/// Sequences that agree up to `i` stand to each other as their rests do.
pub proof fn lemma_lex_skip<T>(a: Seq<T>, b: Seq<T>, i: int, lt: spec_fn(T, T) -> bool)
    requires
        0 <= i <= a.len(),
        i <= b.len(),
        a.take(i) == b.take(i),
    ensures
        lex_less(a, b, lt) == lex_less(a.skip(i), b.skip(i), lt),
    decreases i,
{
    if i > 0 {
        assert(a.take(i)[0] == a[0]);
        assert(b.take(i)[0] == b[0]);
        assert(a[0] == b[0]);
        let a1 = a.drop_first();
        let b1 = b.drop_first();
        assert(a1.take(i - 1) =~= a.take(i).drop_first());
        assert(b1.take(i - 1) =~= b.take(i).drop_first());
        lemma_lex_skip(a1, b1, i - 1, lt);
        assert(a1.skip(i - 1) =~= a.skip(i));
        assert(b1.skip(i - 1) =~= b.skip(i));
        assert(lex_less(a, b, lt) == lex_less(a1, b1, lt));
    } else {
        assert(a.skip(0) =~= a);
        assert(b.skip(0) =~= b);
    }
}

/// The order of characters: by code point.
pub open spec fn char_lt() -> spec_fn(char, char) -> bool {
    |x: char, y: char| x < y
}

/// The order of numbers.
pub open spec fn num_lt() -> spec_fn(u64, u64) -> bool {
    |x: u64, y: u64| x < y
}

/// Whether the text `a` comes before the text `b`.
pub open spec fn text_less(a: Seq<char>, b: Seq<char>) -> bool {
    lex_less(a, b, char_lt())
}

/// Whether the numbers `a` come before the numbers `b`.
pub open spec fn nums_less(a: Seq<u64>, b: Seq<u64>) -> bool {
    lex_less(a, b, num_lt())
}

/// How the text `a` stands to `b`.
pub open spec fn text_order(a: Seq<char>, b: Seq<char>) -> Order {
    if a == b {
        Order::Equal
    } else if text_less(a, b) {
        Order::Less
    } else {
        Order::Greater
    }
}

/// How the numbers `a` stand to `b`.
pub open spec fn nums_order(a: Seq<u64>, b: Seq<u64>) -> Order {
    if a == b {
        Order::Equal
    } else if nums_less(a, b) {
        Order::Less
    } else {
        Order::Greater
    }
}

/// No text comes before itself.
pub proof fn lemma_text_irreflexive(a: Seq<char>)
    ensures
        !text_less(a, a),
{
    lemma_lex_irreflexive(a, char_lt());
}

/// Of two different texts one comes before the other.
pub proof fn lemma_text_total(a: Seq<char>, b: Seq<char>)
    ensures
        a == b || text_less(a, b) || text_less(b, a),
{
    lemma_lex_total(a, b, char_lt());
}

/// Two texts do not each come before the other.
pub proof fn lemma_text_asymmetric(a: Seq<char>, b: Seq<char>)
    requires
        text_less(a, b),
    ensures
        !text_less(b, a),
{
    lemma_lex_asymmetric(a, b, char_lt());
}

/// Before is transitive.
pub proof fn lemma_text_transitive(a: Seq<char>, b: Seq<char>, c: Seq<char>)
    requires
        text_less(a, b),
        text_less(b, c),
    ensures
        text_less(a, c),
{
    lemma_lex_transitive(a, b, c, char_lt());
}

/// Whether the text `a` comes before the text `b`, where texts stand first
/// by their keys `ka` and `kb`, and by themselves where the keys are the
/// same.
pub open spec fn keyed_less<T>(
    ka: Seq<T>,
    a: Seq<char>,
    kb: Seq<T>,
    b: Seq<char>,
    lt: spec_fn(T, T) -> bool,
) -> bool {
    if ka != kb {
        lex_less(ka, kb, lt)
    } else {
        text_less(a, b)
    }
}

/// Of two different texts one comes before the other, keys or no keys.
pub proof fn lemma_keyed_total<T>(
    ka: Seq<T>,
    a: Seq<char>,
    kb: Seq<T>,
    b: Seq<char>,
    lt: spec_fn(T, T) -> bool,
)
    requires
        strict_total(lt),
    ensures
        a == b || keyed_less(ka, a, kb, b, lt) || keyed_less(kb, b, ka, a, lt),
{
    lemma_lex_total(ka, kb, lt);
    lemma_text_total(a, b);
}

/// Two texts do not each come before the other, and no text with its key
/// comes before itself.
pub proof fn lemma_keyed_asymmetric<T>(
    ka: Seq<T>,
    a: Seq<char>,
    kb: Seq<T>,
    b: Seq<char>,
    lt: spec_fn(T, T) -> bool,
)
    requires
        strict_total(lt),
        keyed_less(ka, a, kb, b, lt),
    ensures
        !keyed_less(kb, b, ka, a, lt),
        ka == kb ==> a != b,
{
    if ka != kb {
        lemma_lex_asymmetric(ka, kb, lt);
    } else {
        lemma_text_asymmetric(a, b);
        lemma_text_irreflexive(a);
    }
}

/// Before is transitive.
pub proof fn lemma_keyed_transitive<T>(
    ka: Seq<T>,
    a: Seq<char>,
    kb: Seq<T>,
    b: Seq<char>,
    kc: Seq<T>,
    c: Seq<char>,
    lt: spec_fn(T, T) -> bool,
)
    requires
        strict_total(lt),
        keyed_less(ka, a, kb, b, lt),
        keyed_less(kb, b, kc, c, lt),
    ensures
        keyed_less(ka, a, kc, c, lt),
{
    if ka == kb && kb == kc {
        lemma_text_transitive(a, b, c);
    } else if ka != kb && kb != kc {
        lemma_lex_transitive(ka, kb, kc, lt);
        lemma_lex_irreflexive(ka, lt);
    }
}

/// How the text `a` stands to the text `b`.
pub fn text_compare(a: &Vec<char>, b: &Vec<char>) -> (r: Order)
    ensures
        r == text_order(a@, b@),
{
    let mut i: usize = 0;
    while i < a.len() && i < b.len()
        invariant
            i <= a@.len(),
            i <= b@.len(),
            a@.take(i as int) == b@.take(i as int),
        decreases a@.len() - i,
    {
        let x = a[i];
        let y = b[i];
        if x != y {
            proof {
                lemma_lex_skip(a@, b@, i as int, char_lt());
                assert(a@.skip(i as int)[0] == x);
                assert(b@.skip(i as int)[0] == y);
                assert(a@[i as int] != b@[i as int]);
            }
            if x < y {
                return Order::Less;
            } else {
                return Order::Greater;
            }
        }
        assert(a@.take(i + 1) =~= a@.take(i as int).push(x));
        assert(b@.take(i + 1) =~= b@.take(i as int).push(y));
        i += 1;
    }
    proof {
        lemma_lex_skip(a@, b@, i as int, char_lt());
        if i == a@.len() && i == b@.len() {
            assert(a@ =~= a@.take(i as int));
            assert(b@ =~= b@.take(i as int));
        } else if i == a@.len() {
            assert(a@.skip(i as int).len() == 0);
            assert(b@.skip(i as int).len() > 0);
        } else {
            assert(b@.skip(i as int).len() == 0);
        }
    }
    if i < b.len() {
        Order::Less
    } else if i < a.len() {
        Order::Greater
    } else {
        Order::Equal
    }
}

/// How the numbers `a` stand to the numbers `b`.
pub fn nums_compare(a: &Vec<u64>, b: &Vec<u64>) -> (r: Order)
    ensures
        r == nums_order(a@, b@),
{
    let mut i: usize = 0;
    while i < a.len() && i < b.len()
        invariant
            i <= a@.len(),
            i <= b@.len(),
            a@.take(i as int) == b@.take(i as int),
        decreases a@.len() - i,
    {
        let x = a[i];
        let y = b[i];
        if x != y {
            proof {
                lemma_lex_skip(a@, b@, i as int, num_lt());
                assert(a@.skip(i as int)[0] == x);
                assert(b@.skip(i as int)[0] == y);
                assert(a@[i as int] != b@[i as int]);
            }
            if x < y {
                return Order::Less;
            } else {
                return Order::Greater;
            }
        }
        assert(a@.take(i + 1) =~= a@.take(i as int).push(x));
        assert(b@.take(i + 1) =~= b@.take(i as int).push(y));
        i += 1;
    }
    proof {
        lemma_lex_skip(a@, b@, i as int, num_lt());
        if i == a@.len() && i == b@.len() {
            assert(a@ =~= a@.take(i as int));
            assert(b@ =~= b@.take(i as int));
        } else if i == a@.len() {
            assert(a@.skip(i as int).len() == 0);
            assert(b@.skip(i as int).len() > 0);
        } else {
            assert(b@.skip(i as int).len() == 0);
        }
    }
    if i < b.len() {
        Order::Less
    } else if i < a.len() {
        Order::Greater
    } else {
        Order::Equal
    }
}

} // verus!
