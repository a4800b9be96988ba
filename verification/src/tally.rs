//! Grouping rows by a two-part text key: how many rows carry each key,
//! where it first occurs, and the largest value among its rows.
use vstd::prelude::*;

verus! {

/// A row to be grouped: its key (two texts) and a value.
pub struct Keyed {
    pub primary: String,
    pub secondary: String,
    pub value: u64,
}

/// The mathematical value of a row: its key texts and its value.
pub type KeyedView = (Seq<char>, Seq<char>, u64);

impl View for Keyed {
    type V = KeyedView;

    open spec fn view(&self) -> KeyedView {
        (self.primary@, self.secondary@, self.value)
    }
}

/// The views of a sequence of rows.
pub open spec fn keyed_views(rows: Seq<Keyed>) -> Seq<KeyedView> {
    rows.map_values(|r: Keyed| r@)
}

/// The summary of one key: the index of its first row, the number of its
/// rows, and the largest value among them.
#[derive(Clone, Copy, Debug, PartialEq, Eq)]
pub struct Tally {
    pub first: usize,
    pub count: usize,
    pub newest: u64,
}

/// Row `r` carries the key `(a, b)`.
pub open spec fn has_key(r: KeyedView, a: Seq<char>, b: Seq<char>) -> bool {
    r.0 == a && r.1 == b
}

/// The number of rows that carry the key `(a, b)`.
pub open spec fn count_of(rows: Seq<KeyedView>, a: Seq<char>, b: Seq<char>) -> nat
    decreases rows.len(),
{
    if rows.len() == 0 {
        0
    } else {
        count_of(rows.drop_last(), a, b) + if has_key(rows.last(), a, b) {
            1nat
        } else {
            0nat
        }
    }
}

/// The largest value among the rows that carry the key `(a, b)` (0 when
/// there is none).
pub open spec fn newest_of(rows: Seq<KeyedView>, a: Seq<char>, b: Seq<char>) -> u64
    decreases rows.len(),
{
    if rows.len() == 0 {
        0
    } else {
        let before = newest_of(rows.drop_last(), a, b);
        if has_key(rows.last(), a, b) && rows.last().2 > before {
            rows.last().2
        } else {
            before
        }
    }
}

/// The index of the first row that carries the key `(a, b)`.
pub open spec fn first_of(rows: Seq<KeyedView>, a: Seq<char>, b: Seq<char>) -> int
    decreases rows.len(),
{
    if rows.len() == 0 {
        0
    } else if count_of(rows.drop_last(), a, b) > 0 {
        first_of(rows.drop_last(), a, b)
    } else {
        rows.len() - 1
    }
}

/// The key of row `i`, as a pair.
pub open spec fn key_at(rows: Seq<KeyedView>, i: int) -> (Seq<char>, Seq<char>) {
    (rows[i].0, rows[i].1)
}

/// `groups` summarises `rows`: one entry per distinct key, in the order in
/// which the keys first occur, each with its count and largest value.
pub open spec fn tallies(rows: Seq<KeyedView>, groups: Seq<Tally>) -> bool {
    &&& forall|j: int|
        #![trigger groups[j]]
        0 <= j < groups.len() ==> {
            let t = groups[j];
            let k = key_at(rows, t.first as int);
            &&& t.first < rows.len()
            &&& first_of(rows, k.0, k.1) == t.first
            &&& t.count == count_of(rows, k.0, k.1)
            &&& t.newest == newest_of(rows, k.0, k.1)
        }
    &&& forall|j: int, l: int| 0 <= j < l < groups.len() ==> groups[j].first < groups[l].first
    &&& forall|i: int|
        #![trigger rows[i]]
        0 <= i < rows.len() ==> exists|j: int|
            0 <= j < groups.len() && #[trigger] key_at(rows, groups[j].first as int) == key_at(
                rows,
                i,
            )
}

/// Counting never exceeds the number of rows.
pub proof fn lemma_count_bounded(rows: Seq<KeyedView>, a: Seq<char>, b: Seq<char>)
    ensures
        count_of(rows, a, b) <= rows.len(),
    decreases rows.len(),
{
    if rows.len() > 0 {
        lemma_count_bounded(rows.drop_last(), a, b);
    }
}

/// A key is counted exactly when some row carries it; its first row carries
/// it and no row before does; without rows, its largest value is 0.
pub proof fn lemma_first_occurrence(rows: Seq<KeyedView>, a: Seq<char>, b: Seq<char>)
    ensures
        count_of(rows, a, b) > 0 <==> exists|i: int|
            0 <= i < rows.len() && has_key(#[trigger] rows[i], a, b),
        count_of(rows, a, b) > 0 ==> {
            let f = first_of(rows, a, b);
            &&& 0 <= f < rows.len()
            &&& has_key(rows[f], a, b)
            &&& forall|i: int| 0 <= i < f ==> !has_key(#[trigger] rows[i], a, b)
        },
        count_of(rows, a, b) == 0 ==> newest_of(rows, a, b) == 0,
    decreases rows.len(),
{
    if rows.len() > 0 {
        let init = rows.drop_last();
        lemma_first_occurrence(init, a, b);
        assert forall|i: int| 0 <= i < init.len() implies init[i] == rows[i] by {}
        if count_of(rows, a, b) > 0 {
            if count_of(init, a, b) > 0 {
                let i = choose|i: int| 0 <= i < init.len() && has_key(#[trigger] init[i], a, b);
                assert(has_key(rows[i], a, b));
            } else {
                assert(has_key(rows[rows.len() - 1], a, b));
            }
        }
        if exists|i: int| 0 <= i < rows.len() && has_key(#[trigger] rows[i], a, b) {
            let i = choose|i: int| 0 <= i < rows.len() && has_key(#[trigger] rows[i], a, b);
            if i < rows.len() - 1 {
                assert(has_key(init[i], a, b));
            }
        }
    }
}

/// How the summaries of a key change when one row is appended.
proof fn lemma_append_row(rows: Seq<KeyedView>, i: int, a: Seq<char>, b: Seq<char>)
    requires
        0 <= i < rows.len(),
    ensures
        count_of(rows.take(i + 1), a, b) == count_of(rows.take(i), a, b) + if has_key(
            rows[i],
            a,
            b,
        ) {
            1nat
        } else {
            0nat
        },
        count_of(rows.take(i), a, b) > 0 ==> first_of(rows.take(i + 1), a, b) == first_of(
            rows.take(i),
            a,
            b,
        ),
        count_of(rows.take(i), a, b) == 0 && has_key(rows[i], a, b) ==> first_of(
            rows.take(i + 1),
            a,
            b,
        ) == i,
        !has_key(rows[i], a, b) ==> newest_of(rows.take(i + 1), a, b) == newest_of(
            rows.take(i),
            a,
            b,
        ),
        has_key(rows[i], a, b) ==> newest_of(rows.take(i + 1), a, b) == if rows[i].2
            > newest_of(rows.take(i), a, b) {
            rows[i].2
        } else {
            newest_of(rows.take(i), a, b)
        },
{
    assert(rows.take(i + 1).drop_last() =~= rows.take(i));
    assert(rows.take(i + 1).last() == rows[i]);
}

/// Finds the group whose key is the key of row `i`.
fn find_group(rows: &Vec<Keyed>, groups: &Vec<Tally>, i: usize) -> (r: Option<usize>)
    requires
        i < rows.len(),
        forall|j: int| 0 <= j < groups.len() ==> #[trigger] groups@[j].first < rows.len(),
    ensures
        match r {
            Some(j) => j < groups.len() && key_at(keyed_views(rows@), groups@[j as int].first as int)
                == key_at(keyed_views(rows@), i as int),
            None => forall|j: int|
                0 <= j < groups.len() ==> #[trigger] key_at(
                    keyed_views(rows@),
                    groups@[j].first as int,
                ) != key_at(keyed_views(rows@), i as int),
        },
{
    let mut j: usize = 0;
    while j < groups.len()
        invariant
            i < rows.len(),
            j <= groups.len(),
            forall|l: int| 0 <= l < groups.len() ==> #[trigger] groups@[l].first < rows.len(),
            forall|l: int|
                0 <= l < j ==> #[trigger] key_at(keyed_views(rows@), groups@[l].first as int)
                    != key_at(keyed_views(rows@), i as int),
        decreases groups.len() - j,
    {
        let f = groups[j].first;
        if rows[f].primary == rows[i].primary && rows[f].secondary == rows[i].secondary {
            return Some(j);
        }
        j = j + 1;
    }
    None
}

/// Groups `rows` by key, in the order in which the keys first occur.
pub fn tally(rows: &Vec<Keyed>) -> (groups: Vec<Tally>)
    ensures
        tallies(keyed_views(rows@), groups@),
{
    let ghost rs = keyed_views(rows@);
    let mut groups: Vec<Tally> = Vec::new();
    let mut i: usize = 0;
    while i < rows.len()
        invariant
            rs == keyed_views(rows@),
            rs.len() == rows.len(),
            i <= rows.len(),
            forall|j: int| 0 <= j < groups.len() ==> #[trigger] groups@[j].first < i,
            tallies(rs.take(i as int), groups@),
        decreases rows.len() - i,
    {
        let ghost before = groups@;
        let ghost p = rs.take(i as int);
        let ghost q = rs.take(i + 1);
        let ghost k = key_at(rs, i as int);
        let ghost mut home: int = 0;
        assert forall|x: int| 0 <= x < i implies #[trigger] p[x] == rs[x] && q[x] == rs[x] by {}
        assert(q[i as int] == rs[i as int]);
        proof {
            lemma_append_row(rs, i as int, k.0, k.1);
            lemma_count_bounded(p, k.0, k.1);
            lemma_first_occurrence(p, k.0, k.1);
        }
        match find_group(rows, &groups, i) {
            Some(j) => {
                let t = groups[j];
                let newest = if rows[i].value > t.newest { rows[i].value } else { t.newest };
                groups.set(j, Tally { first: t.first, count: t.count + 1, newest });
                proof {
                    home = j as int;
                    assert forall|l: int| 0 <= l < groups.len() && l != j implies key_at(
                        rs,
                        #[trigger] groups@[l].first as int,
                    ) != k by {
                        if key_at(rs, groups@[l].first as int) == k {
                            assert(key_at(p, before[l].first as int) == key_at(
                                p,
                                before[j as int].first as int,
                            ));
                        }
                    }
                }
            },
            None => {
                proof {
                    if count_of(p, k.0, k.1) > 0 {
                        let x = choose|x: int| 0 <= x < p.len() && has_key(#[trigger] p[x], k.0, k.1);
                        assert(key_at(p, x) == k);
                        let j = choose|j: int|
                            0 <= j < before.len() && #[trigger] key_at(p, before[j].first as int)
                                == key_at(p, x);
                        assert(key_at(rs, before[j].first as int) == k);
                    }
                }
                groups.push(Tally { first: i, count: 1, newest: rows[i].value });
                proof {
                    home = groups.len() - 1;
                }
            },
        }
        proof {
            assert forall|j: int| 0 <= j < groups.len() implies {
                let t = #[trigger] groups@[j];
                let kj = key_at(q, t.first as int);
                &&& t.first < q.len()
                &&& first_of(q, kj.0, kj.1) == t.first
                &&& t.count == count_of(q, kj.0, kj.1)
                &&& t.newest == newest_of(q, kj.0, kj.1)
            } by {
                let t = groups@[j];
                let kj = key_at(q, t.first as int);
                lemma_append_row(rs, i as int, kj.0, kj.1);
                if j < before.len() {
                    let kb = key_at(p, before[j].first as int);
                    assert(kb == kj);
                    lemma_first_occurrence(p, kj.0, kj.1);
                }
            }
            assert forall|x: int| #![trigger q[x]] 0 <= x < q.len() implies exists|j: int|
                0 <= j < groups.len() && #[trigger] key_at(q, groups@[j].first as int) == key_at(
                    q,
                    x,
                ) by {
                if x < i {
                    let j = choose|j: int|
                        0 <= j < before.len() && #[trigger] key_at(p, before[j].first as int)
                            == key_at(p, x);
                    assert(key_at(q, groups@[j].first as int) == key_at(q, x));
                } else {
                    assert(key_at(rs, groups@[home].first as int) == k);
                    assert(key_at(q, groups@[home].first as int) == key_at(q, x));
                }
            }
        }
        i = i + 1;
    }
    assert(rs.take(rows.len() as int) =~= rs);
    groups
}

/// The number of rows counted under the keys `ks`, key by key.
pub open spec fn sum_counts(rows: Seq<KeyedView>, ks: Seq<(Seq<char>, Seq<char>)>) -> nat
    decreases ks.len(),
{
    if ks.len() == 0 {
        0
    } else {
        sum_counts(rows, ks.drop_last()) + count_of(rows, ks.last().0, ks.last().1)
    }
}

/// How many of the keys `ks` row `r` carries.
spec fn hits(r: KeyedView, ks: Seq<(Seq<char>, Seq<char>)>) -> nat
    decreases ks.len(),
{
    if ks.len() == 0 {
        0
    } else {
        hits(r, ks.drop_last()) + if has_key(r, ks.last().0, ks.last().1) {
            1nat
        } else {
            0nat
        }
    }
}

proof fn lemma_sum_split(rows: Seq<KeyedView>, ks: Seq<(Seq<char>, Seq<char>)>)
    requires
        rows.len() > 0,
    ensures
        sum_counts(rows, ks) == sum_counts(rows.drop_last(), ks) + hits(rows.last(), ks),
    decreases ks.len(),
{
    if ks.len() > 0 {
        lemma_sum_split(rows, ks.drop_last());
    }
}

proof fn lemma_hits_once(r: KeyedView, ks: Seq<(Seq<char>, Seq<char>)>, w: int)
    requires
        forall|j: int, l: int| 0 <= j < l < ks.len() ==> ks[j] != ks[l],
        0 <= w < ks.len(),
        ks[w] == (r.0, r.1),
    ensures
        hits(r, ks) == 1,
    decreases ks.len(),
{
    let init = ks.drop_last();
    if w == ks.len() - 1 {
        assert forall|j: int| 0 <= j < init.len() implies #[trigger] init[j] != (r.0, r.1) by {
            assert(init[j] == ks[j]);
        }
        lemma_hits_none(r, init);
    } else {
        assert(init[w] == (r.0, r.1));
        assert(ks.last() != (r.0, r.1)) by {
            assert(ks[w] != ks[ks.len() - 1]);
        }
        lemma_hits_once(r, init, w);
    }
}

proof fn lemma_hits_none(r: KeyedView, ks: Seq<(Seq<char>, Seq<char>)>)
    requires
        forall|j: int| 0 <= j < ks.len() ==> #[trigger] ks[j] != (r.0, r.1),
    ensures
        hits(r, ks) == 0,
    decreases ks.len(),
{
    if ks.len() > 0 {
        lemma_hits_none(r, ks.drop_last());
    }
}

/// Counting the rows key by key, over distinct keys that every row carries
/// one of, counts every row once.
pub proof fn lemma_counts_cover_rows(rows: Seq<KeyedView>, ks: Seq<(Seq<char>, Seq<char>)>)
    requires
        forall|j: int, l: int| 0 <= j < l < ks.len() ==> ks[j] != ks[l],
        forall|i: int| 0 <= i < rows.len() ==> ks.contains((#[trigger] rows[i].0, rows[i].1)),
    ensures
        sum_counts(rows, ks) == rows.len(),
    decreases rows.len(),
{
    if rows.len() == 0 {
        lemma_sum_zero(rows, ks);
    } else {
        let init = rows.drop_last();
        assert forall|i: int| 0 <= i < init.len() implies ks.contains(
            (#[trigger] init[i].0, init[i].1),
        ) by {
            assert(init[i] == rows[i]);
        }
        lemma_counts_cover_rows(init, ks);
        lemma_sum_split(rows, ks);
        let last = rows.last();
        assert(last == rows[rows.len() - 1]);
        assert(ks.contains((last.0, last.1)));
        let j = choose|j: int| 0 <= j < ks.len() && ks[j] == (last.0, last.1);
        lemma_hits_once(last, ks, j);
    }
}

proof fn lemma_sum_zero(rows: Seq<KeyedView>, ks: Seq<(Seq<char>, Seq<char>)>)
    requires
        rows.len() == 0,
    ensures
        sum_counts(rows, ks) == 0,
    decreases ks.len(),
{
    if ks.len() > 0 {
        lemma_sum_zero(rows, ks.drop_last());
    }
}

} // verus!
