//! Orders on keys, and a stable sort by them.
use vstd::prelude::*;

verus! {

/// Whether `a` comes before `b` when texts are ordered character by character.
pub open spec fn text_before(a: Seq<char>, b: Seq<char>) -> bool
    decreases a.len(),
{
    if b.len() == 0 {
        false
    } else if a.len() == 0 {
        true
    } else if a[0] != b[0] {
        a[0] < b[0]
    } else {
        text_before(a.drop_first(), b.drop_first())
    }
}

/// The order of texts is strict, and any text lies on one side or the other of
/// the gap between two texts that it orders.
pub proof fn lemma_text_order(a: Seq<char>, b: Seq<char>, c: Seq<char>)
    ensures
        !(text_before(a, b) && text_before(b, a)),
        text_before(a, c) ==> text_before(a, b) || text_before(b, c),
    decreases a.len(), b.len(),
{
    if a.len() > 0 && b.len() > 0 {
        if c.len() > 0 {
            lemma_text_order(a.drop_first(), b.drop_first(), c.drop_first());
        } else {
            lemma_text_order(a.drop_first(), b.drop_first(), c);
        }
    }
}

/// Two texts neither of which comes before the other are the same text.
pub proof fn lemma_text_order_is_total(a: Seq<char>, b: Seq<char>)
    ensures
        text_before(a, b) || text_before(b, a) || a == b,
    decreases a.len(),
{
    if a.len() > 0 && b.len() > 0 && a[0] == b[0] {
        lemma_text_order_is_total(a.drop_first(), b.drop_first());
        if a.drop_first() == b.drop_first() {
            assert(a =~= seq![a[0]] + a.drop_first());
            assert(b =~= seq![b[0]] + b.drop_first());
        }
    } else if a.len() == 0 && b.len() == 0 {
        assert(a =~= b);
    }
}

/// Two texts that begin alike are ordered by the first character in which they differ; one
/// that ends there comes before one that goes on, and none before one that ends there.
pub proof fn law_texts_are_ordered_by_their_first_difference(a: Seq<char>, b: Seq<char>, n: int)
    requires
        0 <= n <= a.len(),
        n <= b.len(),
        forall|i: int| 0 <= i < n ==> #[trigger] a[i] == b[i],
    ensures
        n < a.len() && n < b.len() && a[n] != b[n] ==> (text_before(a, b) <==> a[n] < b[n]),
        n == a.len() && n < b.len() ==> text_before(a, b),
        n == b.len() ==> !text_before(a, b),
    decreases n,
{
    if n > 0 {
        let a_rest = a.drop_first();
        let b_rest = b.drop_first();
        assert(a[0] == b[0]);
        assert forall|i: int| 0 <= i < n - 1 implies #[trigger] a_rest[i] == b_rest[i] by {
            assert(a[i + 1] == b[i + 1]);
        }
        law_texts_are_ordered_by_their_first_difference(a_rest, b_rest, n - 1);
    }
}

/// Whether `a` comes before `b` when texts are ordered character by character.
pub fn is_text_before(a: &str, b: &str) -> (before: bool)
    ensures
        before == text_before(a@, b@),
{
    let a_len: usize = a.unicode_len();
    let b_len: usize = b.unicode_len();
    let mut i: usize = 0;
    proof {
        assert(a@.skip(0) =~= a@);
        assert(b@.skip(0) =~= b@);
    }
    while i < a_len && i < b_len
        invariant
            a_len == a@.len(),
            b_len == b@.len(),
            i <= a_len,
            i <= b_len,
            text_before(a@, b@) == text_before(a@.skip(i as int), b@.skip(i as int)),
        decreases a_len - i,
    {
        let a_char: char = a.get_char(i);
        let b_char: char = b.get_char(i);
        if a_char != b_char {
            return a_char < b_char;
        }
        proof {
            assert(a@.skip(i as int).drop_first() =~= a@.skip(i + 1));
            assert(b@.skip(i as int).drop_first() =~= b@.skip(i + 1));
        }
        i += 1;
    }
    i < b_len
}

/// A key to sort by.
pub trait SortKey: Sized {
    /// Whether the key comes strictly before another.
    spec fn before(self, other: Self) -> bool;

    /// No two keys come before each other.
    proof fn before_is_asymmetric(a: Self, b: Self)
        ensures
            !(a.before(b) && b.before(a)),
    ;

    /// Any key lies on one side or the other of the gap between two ordered keys.
    proof fn before_splits(a: Self, b: Self, c: Self)
        ensures
            a.before(c) ==> a.before(b) || b.before(c),
    ;

    /// Whether the key comes strictly before another.
    fn is_before(&self, other: &Self) -> (before: bool)
        ensures
            before == self.before(*other),
    ;
}

/// Whether the item at `i` stands before the item at `j` in a stable sort by `keys`.
pub open spec fn stands_before<K: SortKey>(keys: Seq<K>, i: int, j: int) -> bool {
    keys[i].before(keys[j]) || (!keys[j].before(keys[i]) && i < j)
}

/// Whether `order` lists the positions of `keys`, each once, in the order of a
/// stable sort.
pub open spec fn is_stable_order<K: SortKey>(keys: Seq<K>, order: Seq<usize>) -> bool {
    &&& order.len() == keys.len()
    &&& forall|a: int| 0 <= a < order.len() ==> (#[trigger] order[a]) < keys.len()
    &&& forall|a: int, b: int|
        0 <= a < b < order.len() ==> stands_before(
            keys,
            #[trigger] order[a] as int,
            #[trigger] order[b] as int,
        )
}

/// `stands_before` is a strict order of positions.
pub proof fn lemma_stands_before<K: SortKey>(keys: Seq<K>, i: int, j: int, k: int)
    ensures
        !stands_before(keys, i, i),
        stands_before(keys, i, j) ==> !stands_before(keys, j, i),
        i != j ==> stands_before(keys, i, j) || stands_before(keys, j, i),
        stands_before(keys, i, j) && stands_before(keys, j, k) ==> stands_before(keys, i, k),
{
    K::before_is_asymmetric(keys[i], keys[i]);
    K::before_is_asymmetric(keys[i], keys[j]);
    K::before_is_asymmetric(keys[j], keys[k]);
    K::before_is_asymmetric(keys[i], keys[k]);
    K::before_splits(keys[i], keys[k], keys[j]);
    K::before_splits(keys[j], keys[i], keys[k]);
    K::before_splits(keys[k], keys[j], keys[i]);
    K::before_splits(keys[k], keys[i], keys[j]);
    K::before_splits(keys[j], keys[k], keys[i]);
}

/// The positions of `keys` in the order of a stable sort.
pub fn stable_order<K: SortKey>(keys: &Vec<K>) -> (order: Vec<usize>)
    ensures
        is_stable_order(keys@, order@),
{
    let mut order: Vec<usize> = Vec::new();
    let mut next: usize = 0;
    while next < keys.len()
        invariant
            next <= keys@.len(),
            is_stable_order(keys@.take(next as int), order@),
        decreases keys.len() - next,
    {
        let mut slot: usize = order.len();
        while slot > 0 && keys[next].is_before(&keys[order[slot - 1]])
            invariant
                next < keys@.len(),
                slot <= order@.len() == next,
                is_stable_order(keys@.take(next as int), order@),
                forall|a: int|
                    slot <= a < order@.len() ==> keys@[next as int].before(
                        keys@[#[trigger] order@[a] as int],
                    ),
            decreases slot,
        {
            slot -= 1;
        }
        let ghost before = order@;
        order.insert(slot, next);
        proof {
            lemma_inserted(keys@, before, next as int, slot as int);
        }
        next += 1;
    }
    proof {
        assert(keys@.take(keys@.len() as int) =~= keys@);
    }
    order
}

/// Putting position `next` behind every item that does not come after it, and
/// before those that do, keeps the order.
proof fn lemma_inserted<K: SortKey>(keys: Seq<K>, order: Seq<usize>, next: int, slot: int)
    requires
        0 <= next < keys.len(),
        next <= usize::MAX,
        is_stable_order(keys.take(next), order),
        0 <= slot <= order.len(),
        slot > 0 ==> !keys[next].before(keys[order[slot - 1] as int]),
        forall|a: int|
            slot <= a < order.len() ==> keys[next].before(keys[#[trigger] order[a] as int]),
    ensures
        is_stable_order(keys.take(next + 1), order.insert(slot, next as usize)),
{
    let inserted = order.insert(slot, next as usize);
    let old_keys = keys.take(next);
    let new_keys = keys.take(next + 1);
    assert forall|i: int, j: int| 0 <= i < next && 0 <= j < next implies stands_before(
        old_keys,
        i,
        j,
    ) == #[trigger] stands_before(new_keys, i, j) by {}
    assert forall|a: int| 0 <= a < slot implies stands_before(
        new_keys,
        #[trigger] order[a] as int,
        next,
    ) by {
        let last = order[slot - 1] as int;
        if a < slot - 1 {
            assert(stands_before(old_keys, order[a] as int, last));
            assert(stands_before(new_keys, order[a] as int, last));
        }
        lemma_stands_before(new_keys, order[a] as int, last, next);
        assert(stands_before(new_keys, last, next));
    }
    assert forall|a: int, b: int| 0 <= a < b < inserted.len() implies stands_before(
        new_keys,
        #[trigger] inserted[a] as int,
        #[trigger] inserted[b] as int,
    ) by {
        let a0 = if a < slot { a } else { a - 1 };
        let b0 = if b < slot { b } else { b - 1 };
        if a != slot && b != slot {
            assert(inserted[a] == order[a0] && inserted[b] == order[b0]);
            assert(stands_before(old_keys, order[a0] as int, order[b0] as int));
            assert(stands_before(new_keys, order[a0] as int, order[b0] as int));
        } else if b == slot {
            assert(inserted[a] == order[a0]);
        } else {
            assert(inserted[b] == order[b0]);
        }
    }
}

/// Whether a list of positions holds `p`.
pub open spec fn lists(order: Seq<usize>, p: int) -> bool {
    exists|k: int| 0 <= k < order.len() && #[trigger] order[k] == p
}

/// A stable order mentions every position.
pub proof fn lemma_stable_order_is_permutation<K: SortKey>(keys: Seq<K>, sorted: Seq<usize>)
    requires
        is_stable_order(keys, sorted),
    ensures
        sorted.no_duplicates(),
        forall|p: int| 0 <= p < keys.len() ==> #[trigger] lists(sorted, p),
{
    assert forall|i: int, j: int|
        0 <= i < sorted.len() && 0 <= j < sorted.len() && i != j implies sorted[i] != sorted[j] by {
        let a = if i < j { i } else { j };
        let b = if i < j { j } else { i };
        assert(stands_before(keys, sorted[a] as int, sorted[b] as int));
        lemma_stands_before(keys, sorted[a] as int, sorted[b] as int, 0);
    }
    let positions = Seq::new(sorted.len(), |k: int| sorted[k] as int);
    assert(positions.no_duplicates());
    let all = vstd::set_lib::set_int_range(0, keys.len() as int);
    vstd::set_lib::lemma_int_range(0, keys.len() as int);
    positions.unique_seq_to_set();
    assert(positions.to_set().subset_of(all)) by {
        assert forall|p: int| positions.to_set().contains(p) implies all.contains(p) by {
            let k = positions.index_of(p);
            assert(sorted[k] < keys.len());
        }
    }
    vstd::set_lib::lemma_subset_equality(positions.to_set(), all);
    assert forall|p: int| 0 <= p < keys.len() implies #[trigger] lists(
        sorted,
        p,
    ) by {
        assert(all.contains(p));
        assert(positions.to_set().contains(p));
        let k = positions.index_of(p);
        assert(sorted[k] == p);
    }
}

} // verus!
