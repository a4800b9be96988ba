//! Sort keys and a stable sort over them.
//!
//! Every ordering the library performs (albums by artist, by album, by date
//! added; directories by track count) is a stable sort by a key made of two
//! texts and a number, compared lexicographically.
use vstd::prelude::*;
use crate::text::{Order, compare_text, text_lt, lemma_text_lt_irreflexive,
    lemma_text_lt_asymmetric, lemma_text_lt_transitive, lemma_text_lt_total};

verus! {

/// A sort key: a major text, a minor text and a rank, compared in that order.
pub struct SortKey {
    pub major: Vec<char>,
    pub minor: Vec<char>,
    pub rank: u64,
}

/// The mathematical value of a sort key.
pub type KeyView = (Seq<char>, Seq<char>, u64);

impl View for SortKey {
    type V = KeyView;

    open spec fn view(&self) -> KeyView {
        (self.major@, self.minor@, self.rank)
    }
}

/// `a` sorts strictly before `b`.
pub open spec fn key_lt(a: KeyView, b: KeyView) -> bool {
    ||| text_lt(a.0, b.0)
    ||| a.0 == b.0 && text_lt(a.1, b.1)
    ||| a.0 == b.0 && a.1 == b.1 && a.2 < b.2
}

/// The views of a sequence of keys.
pub open spec fn key_views(keys: Seq<SortKey>) -> Seq<KeyView> {
    keys.map_values(|k: SortKey| k@)
}

/// The key order is a strict total order.
pub proof fn lemma_key_order(a: KeyView, b: KeyView, c: KeyView)
    ensures
        !key_lt(a, a),
        !(key_lt(a, b) && key_lt(b, a)),
        key_lt(a, b) && key_lt(b, c) ==> key_lt(a, c),
        a == b || key_lt(a, b) || key_lt(b, a),
{
    lemma_text_lt_irreflexive(a.0);
    lemma_text_lt_irreflexive(a.1);
    lemma_text_lt_asymmetric(a.0, b.0);
    lemma_text_lt_asymmetric(a.1, b.1);
    lemma_text_lt_total(a.0, b.0);
    lemma_text_lt_total(a.1, b.1);
    if text_lt(a.0, b.0) && text_lt(b.0, c.0) {
        lemma_text_lt_transitive(a.0, b.0, c.0);
    }
    if text_lt(a.1, b.1) && text_lt(b.1, c.1) {
        lemma_text_lt_transitive(a.1, b.1, c.1);
    }
}

/// "Not after" is transitive.
proof fn lemma_not_after_transitive(a: KeyView, b: KeyView, c: KeyView)
    requires
        !key_lt(b, a),
        !key_lt(c, b),
    ensures
        !key_lt(c, a),
{
    lemma_key_order(a, b, c);
    lemma_key_order(c, a, b);
    lemma_key_order(b, c, a);
}

/// `order` lists every index below `n` exactly once.
pub open spec fn is_permutation(order: Seq<usize>, n: nat) -> bool {
    &&& order.len() == n
    &&& forall|k: int| 0 <= k < n ==> #[trigger] order[k] < n
    &&& forall|k: int, l: int| 0 <= k < l < n ==> order[k] != order[l]
}

/// Reading `keys` in the order of the indices in `order` gives a sorted
/// sequence, and indices of equal keys keep their relative order.
pub open spec fn sorts_stably(keys: Seq<KeyView>, order: Seq<usize>) -> bool {
    &&& is_permutation(order, keys.len())
    &&& forall|k: int, l: int|
        0 <= k < l < order.len() ==> !key_lt(keys[order[l] as int], keys[order[k] as int])
    &&& forall|k: int, l: int|
        0 <= k < l < order.len() && keys[order[k] as int] == keys[order[l] as int]
            ==> order[k] < order[l]
}

/// Whether `a` sorts strictly before `b`.
pub fn key_less(a: &SortKey, b: &SortKey) -> (r: bool)
    ensures
        r == key_lt(a@, b@),
{
    proof {
        lemma_text_lt_asymmetric(a.major@, b.major@);
        lemma_text_lt_asymmetric(a.minor@, b.minor@);
    }
    match compare_text(&a.major, &b.major) {
        Order::Less => true,
        Order::Greater => false,
        Order::Equal => match compare_text(&a.minor, &b.minor) {
            Order::Less => true,
            Order::Greater => false,
            Order::Equal => a.rank < b.rank,
        },
    }
}

/// The order in which to read `keys` so that they come out sorted, equal
/// keys in their original order (an insertion sort of the indices).
pub fn stable_order(keys: &Vec<SortKey>) -> (order: Vec<usize>)
    ensures
        sorts_stably(key_views(keys@), order@),
{
    let ghost ks = key_views(keys@);
    let n = keys.len();
    let mut order: Vec<usize> = Vec::new();
    let mut m: usize = 0;
    while m < n
        invariant
            m <= n,
            n == keys.len(),
            order.len() == m,
            forall|k: int| 0 <= k < m ==> #[trigger] order@[k] == k,
        decreases n - m,
    {
        order.push(m);
        m = m + 1;
    }
    let mut i: usize = 0;
    while i < n
        invariant
            n == keys.len(),
            ks == key_views(keys@),
            ks.len() == n,
            i <= n,
            order.len() == n,
            forall|k: int| i <= k < n ==> #[trigger] order@[k] == k,
            forall|k: int| 0 <= k < i ==> #[trigger] order@[k] < i,
            forall|k: int, l: int| 0 <= k < l < i ==> order@[k] != order@[l],
            forall|k: int, l: int|
                0 <= k < l < i ==> !key_lt(ks[order@[l] as int], ks[order@[k] as int]),
            forall|k: int, l: int|
                0 <= k < l < i && ks[order@[k] as int] == ks[order@[l] as int]
                    ==> order@[k] < order@[l],
        decreases n - i,
    {
        let mut j: usize = i;
        while j > 0 && key_less(&keys[i], &keys[order[j - 1]])
            invariant
                n == keys.len(),
                ks == key_views(keys@),
                ks.len() == n,
                i < n,
                j <= i,
                order.len() == n,
                order@[j as int] == i,
                forall|k: int| i < k < n ==> #[trigger] order@[k] == k,
                forall|k: int| 0 <= k <= i && k != j ==> #[trigger] order@[k] < i,
                forall|k: int, l: int| 0 <= k < l <= i ==> order@[k] != order@[l],
                forall|k: int, l: int|
                    0 <= k < l <= i && k != j && l != j ==> !key_lt(
                        ks[order@[l] as int],
                        ks[order@[k] as int],
                    ),
                forall|l: int| j < l <= i ==> key_lt(ks[i as int], #[trigger] ks[order@[l] as int]),
                forall|k: int, l: int|
                    0 <= k < l <= i && k != j && l != j && ks[order@[k] as int]
                        == ks[order@[l] as int] ==> order@[k] < order@[l],
            decreases j,
        {
            let y = order[j - 1];
            order.set(j - 1, i);
            order.set(j, y);
            j = j - 1;
        }
        proof {
            assert forall|k: int| 0 <= k < j implies !key_lt(
                ks[i as int],
                #[trigger] ks[order@[k] as int],
            ) by {
                if k < j - 1 {
                    lemma_not_after_transitive(
                        ks[order@[k] as int],
                        ks[order@[j - 1] as int],
                        ks[i as int],
                    );
                }
            }
            assert forall|l: int| j < l <= i implies !key_lt(
                #[trigger] ks[order@[l] as int],
                ks[i as int],
            ) && ks[order@[l] as int] != ks[i as int] by {
                lemma_key_order(ks[i as int], ks[order@[l] as int], ks[i as int]);
            }
        }
        i = i + 1;
    }
    order
}

} // verus!

verus! {

/// `items` read in the order of the indices in `order`.
pub open spec fn arranged<T>(items: Seq<T>, order: Seq<usize>) -> Seq<T> {
    Seq::new(order.len(), |k: int| items[order[k] as int])
}

} // verus!
