//! The order of texts by their characters, and maps kept in that order.

use crate::text::{same_text, to_chars};
use vstd::prelude::*;

verus! {

/// `a` and `b` agree on their first `k` characters, and there `a` ends while `b`
/// goes on, or `a` has the smaller character.
pub open spec fn parts_at(a: Seq<char>, b: Seq<char>, k: int) -> bool {
    &&& 0 <= k <= a.len()
    &&& k < b.len()
    &&& a.take(k) == b.take(k)
    &&& (k == a.len() || (a[k] as int) < (b[k] as int))
}

/// `a` stands before `b` in the order of texts.
pub open spec fn text_lt(a: Seq<char>, b: Seq<char>) -> bool {
    exists|k: int| parts_at(a, b, k)
}

/// Of two texts, one stands before the other unless they are equal, and never both.
pub proof fn law_text_order_total(a: Seq<char>, b: Seq<char>)
    ensures
        text_lt(a, b) || a == b || text_lt(b, a),
        !(text_lt(a, b) && text_lt(b, a)),
        !text_lt(a, a),
{
    if !text_lt(a, b) && !text_lt(b, a) {
        assert forall|k: int| 0 <= k <= a.len() && k <= b.len() implies #[trigger] a.take(k) == b.take(
            k,
        ) by {
            lemma_agree_up_to(a, b, k);
        }
        if a.len() < b.len() {
            assert(parts_at(a, b, a.len() as int));
        } else if b.len() < a.len() {
            assert(b.take(b.len() as int) == a.take(b.len() as int));
            assert(parts_at(b, a, b.len() as int));
        } else {
            assert(a.take(a.len() as int) =~= a);
            assert(b.take(a.len() as int) =~= b);
        }
    }
    if text_lt(a, b) && text_lt(b, a) {
        let k = choose|k: int| parts_at(a, b, k);
        let m = choose|m: int| parts_at(b, a, m);
        if k < m {
            assert(b.take(m)[k] == a.take(m)[k]);
        } else if m < k {
            assert(a.take(k)[m] == b.take(k)[m]);
        }
    }
    if text_lt(a, a) {
        let k = choose|k: int| parts_at(a, a, k);
        assert(false);
    }
}

proof fn lemma_agree_up_to(a: Seq<char>, b: Seq<char>, k: int)
    requires
        0 <= k <= a.len(),
        k <= b.len(),
        !text_lt(a, b),
        !text_lt(b, a),
    ensures
        a.take(k) == b.take(k),
    decreases k,
{
    if k > 0 {
        lemma_agree_up_to(a, b, k - 1);
        assert(!parts_at(a, b, k - 1));
        assert(!parts_at(b, a, k - 1));
        assert(a[k - 1] as int == b[k - 1] as int);
        assert(a.take(k) =~= a.take(k - 1).push(a[k - 1]));
        assert(b.take(k) =~= b.take(k - 1).push(b[k - 1]));
    } else {
        assert(a.take(0) =~= b.take(0));
    }
}

/// The order of texts is transitive.
pub proof fn law_text_order_transitive(a: Seq<char>, b: Seq<char>, c: Seq<char>)
    requires
        text_lt(a, b),
        text_lt(b, c),
    ensures
        text_lt(a, c),
{
    let k = choose|k: int| parts_at(a, b, k);
    let m = choose|m: int| parts_at(b, c, m);
    let n = if k <= m { k } else { m };
    assert(a.take(n) =~= c.take(n)) by {
        assert forall|i: int| 0 <= i < n implies a[i] == c[i] by {
            assert(a.take(k)[i] == b.take(k)[i]);
            assert(b.take(m)[i] == c.take(m)[i]);
        }
    }
    if k < m {
        assert(b.take(m)[k] == c.take(m)[k]);
    } else if m < k {
        assert(a.take(k)[m] == b.take(k)[m]);
    }
    assert(parts_at(a, c, n));
}

/// Texts that agree up to `k` are ordered by what follows there.
pub proof fn lemma_lt_at(a: Seq<char>, b: Seq<char>, k: int)
    requires
        0 <= k <= a.len(),
        k < b.len(),
        forall|i: int| 0 <= i < k ==> a[i] == b[i],
        k == a.len() || (a[k] as int) < (b[k] as int),
    ensures
        text_lt(a, b),
{
    assert(a.take(k) =~= b.take(k));
    assert(parts_at(a, b, k));
}

/// Whether `a` stands before `b`.
pub fn text_before(a: &str, b: &str) -> (r: bool)
    ensures
        r == text_lt(a@, b@),
{
    let x = to_chars(a);
    let y = to_chars(b);
    let mut i: usize = 0;
    while i < x.len() && i < y.len() && x[i] == y[i]
        invariant
            x@ == a@,
            y@ == b@,
            i <= x.len(),
            i <= y.len(),
            x@.take(i as int) == y@.take(i as int),
        decreases x.len() - i,
    {
        i = i + 1;
        proof {
            assert(x@.take(i as int) =~= x@.take(i - 1).push(x@[i - 1]));
            assert(y@.take(i as int) =~= y@.take(i - 1).push(y@[i - 1]));
        }
    }
    proof {
        law_text_order_total(a@, b@);
    }
    if i == y.len() {
        proof {
            if i < x.len() {
                assert(parts_at(b@, a@, i as int));
            } else {
                assert(x@.take(i as int) =~= a@);
                assert(y@.take(i as int) =~= b@);
            }
        }
        false
    } else if i == x.len() {
        proof {
            assert(parts_at(a@, b@, i as int));
        }
        true
    } else if x[i] < y[i] {
        proof {
            assert(parts_at(a@, b@, i as int));
        }
        true
    } else {
        proof {
            assert(parts_at(b@, a@, i as int));
        }
        false
    }
}

/// A map from texts, kept in the order of its keys.
#[derive(Debug)]
pub struct SortedMap<V> {
    pub entries: Vec<(String, V)>,
}

/// Keys stand in strictly ascending order, so none occurs twice.
pub open spec fn ascending<V>(entries: Seq<(String, V)>) -> bool {
    forall|i: int, j: int|
        0 <= i < j < entries.len() ==> text_lt(#[trigger] entries[i].0@, #[trigger] entries[j].0@)
}

pub open spec fn has_key<V>(entries: Seq<(String, V)>, key: Seq<char>) -> bool {
    exists|i: int| 0 <= i < entries.len() && #[trigger] entries[i].0@ == key
}

pub open spec fn index_of_key<V>(entries: Seq<(String, V)>, key: Seq<char>) -> int {
    choose|i: int| 0 <= i < entries.len() && #[trigger] entries[i].0@ == key
}

/// What a list of entries maps each key to.
pub open spec fn entries_map<V>(entries: Seq<(String, V)>) -> Map<Seq<char>, V> {
    Map::new(
        |key: Seq<char>| has_key(entries, key),
        |key: Seq<char>| entries[index_of_key(entries, key)].1,
    )
}

/// An entry of an ascending list is what its key maps to.
pub proof fn lemma_key_index<V>(entries: Seq<(String, V)>, i: int)
    requires
        ascending(entries),
        0 <= i < entries.len(),
    ensures
        has_key(entries, entries[i].0@),
        index_of_key(entries, entries[i].0@) == i,
        entries_map(entries).dom().contains(entries[i].0@),
        entries_map(entries)[entries[i].0@] == entries[i].1,
{
    let key = entries[i].0@;
    let m = index_of_key(entries, key);
    assert(entries[i].0@ == key);
    assert(0 <= m < entries.len() && entries[m].0@ == key);
    law_text_order_total(key, key);
    if m < i {
        assert(text_lt(entries[m].0@, entries[i].0@));
    } else if i < m {
        assert(text_lt(entries[i].0@, entries[m].0@));
    }
}

/// Two lists in ascending order that map the same keys to the same values hold
/// the same entries in the same places: a map has one written form.
pub proof fn law_sorted_entries_unique<V>(a: Seq<(String, V)>, b: Seq<(String, V)>)
    requires
        ascending(a),
        ascending(b),
        entries_map(a) == entries_map(b),
    ensures
        a.len() == b.len(),
        forall|i: int| 0 <= i < a.len() ==> a[i].0@ == #[trigger] b[i].0@ && a[i].1 == b[i].1,
{
    assert forall|i: int| 0 <= i < a.len() implies i < b.len() && a[i].0@ == #[trigger] b[i].0@ by {
        lemma_same_place(a, b, i);
    }
    assert forall|i: int| 0 <= i < b.len() implies i < a.len() && b[i].0@ == #[trigger] a[i].0@ by {
        lemma_same_place(b, a, i);
    }
    if a.len() < b.len() {
        assert(b[a.len() as int].0@ == a[a.len() as int].0@);
    }
    if b.len() < a.len() {
        assert(a[b.len() as int].0@ == b[b.len() as int].0@);
    }
    assert forall|i: int| 0 <= i < a.len() implies a[i].0@ == #[trigger] b[i].0@ && a[i].1
        == b[i].1 by {
        lemma_key_index(a, i);
        lemma_key_index(b, i);
    }
}

proof fn lemma_same_place<V>(a: Seq<(String, V)>, b: Seq<(String, V)>, i: int)
    requires
        ascending(a),
        ascending(b),
        entries_map(a) == entries_map(b),
        0 <= i < a.len(),
    ensures
        i < b.len(),
        a[i].0@ == b[i].0@,
    decreases i,
{
    if i > 0 {
        lemma_same_place(a, b, i - 1);
    }
    lemma_key_index(a, i);
    assert(entries_map(b).dom().contains(a[i].0@));
    let m = index_of_key(b, a[i].0@);
    assert(0 <= m < b.len() && b[m].0@ == a[i].0@);
    if m < i {
        lemma_same_place(a, b, m);
        assert(text_lt(a[m].0@, a[i].0@));
        law_text_order_total(a[i].0@, a[i].0@);
    }
    if m > i {
        lemma_key_index(b, i);
        assert(entries_map(a).dom().contains(b[i].0@));
        let n = index_of_key(a, b[i].0@);
        assert(0 <= n < a.len() && a[n].0@ == b[i].0@);
        assert(text_lt(b[i].0@, b[m].0@));
        law_text_order_total(a[i].0@, a[n].0@);
        if n < i {
            lemma_same_place(a, b, n);
            assert(text_lt(b[n].0@, b[i].0@));
            law_text_order_total(b[i].0@, b[i].0@);
        } else if n > i {
            assert(text_lt(a[i].0@, a[n].0@));
        }
    }
}

impl<V> SortedMap<V> {
    pub open spec fn wf(&self) -> bool {
        ascending(self.entries@)
    }

    pub open spec fn as_map(&self) -> Map<Seq<char>, V> {
        entries_map(self.entries@)
    }

    pub fn new() -> (r: Self)
        ensures
            r.wf(),
            r.entries@.len() == 0,
            r.as_map() == Map::<Seq<char>, V>::empty(),
    {
        let r = SortedMap { entries: Vec::new() };
        proof {
            assert(r.as_map() =~= Map::<Seq<char>, V>::empty());
        }
        r
    }

    /// The position of `key` among the entries.
    pub fn position(&self, key: &str) -> (r: Option<usize>)
        requires
            self.wf(),
        ensures
            match r {
                Some(i) => i < self.entries@.len() && self.as_map().dom().contains(key@)
                    && self.as_map()[key@] == self.entries@[i as int].1,
                None => !self.as_map().dom().contains(key@),
            },
    {
        let mut i: usize = 0;
        while i < self.entries.len()
            invariant
                self.wf(),
                i <= self.entries.len(),
                forall|j: int| 0 <= j < i ==> #[trigger] self.entries@[j].0@ != key@,
            decreases self.entries.len() - i,
        {
            if same_text(&self.entries[i].0, key) {
                proof {
                    lemma_key_index(self.entries@, i as int);
                }
                return Some(i);
            }
            i = i + 1;
        }
        None
    }

    /// Appends an entry whose key follows all others.
    pub fn push_last(&mut self, key: String, value: V)
        requires
            old(self).wf(),
            old(self).entries@.len() > 0 ==> text_lt(old(self).entries@.last().0@, key@),
        ensures
            final(self).wf(),
            final(self).entries@ == old(self).entries@.push((key, value)),
    {
        let ghost before = self.entries@;
        let ghost pair = (key, value);
        self.entries.push((key, value));
        proof {
            let after = before.push(pair);
            assert forall|i: int, j: int| 0 <= i < j < after.len() implies text_lt(
                #[trigger] after[i].0@,
                #[trigger] after[j].0@,
            ) by {
                if j < before.len() {
                    assert(text_lt(before[i].0@, before[j].0@));
                } else if i < before.len() - 1 {
                    assert(text_lt(before[i].0@, before.last().0@));
                    law_text_order_transitive(before[i].0@, before.last().0@, pair.0@);
                }
            }
        }
    }

    /// Maps `key` to `value`, in place of what it mapped to before.
    pub fn insert(&mut self, key: String, value: V)
        requires
            old(self).wf(),
        ensures
            final(self).wf(),
            final(self).as_map() == old(self).as_map().insert(key@, value),
    {
        let ghost before = self.entries@;
        let mut p: usize = 0;
        while p < self.entries.len() && text_before(&self.entries[p].0, &key)
            invariant
                self.entries@ == before,
                ascending(before),
                p <= before.len(),
                forall|i: int| 0 <= i < p ==> text_lt(#[trigger] before[i].0@, key@),
            decreases before.len() - p,
        {
            p = p + 1;
        }
        proof {
            law_text_order_total(key@, key@);
        }
        if p < self.entries.len() && self.entries[p].0 == key {
            let ghost pair = (key, value);
            self.entries.set(p, (key, value));
            proof {
                let after = self.entries@;
                assert(after == before.update(p as int, pair));
                assert forall|i: int, j: int| 0 <= i < j < after.len() implies text_lt(
                    #[trigger] after[i].0@,
                    #[trigger] after[j].0@,
                ) by {
                    assert(text_lt(before[i].0@, before[j].0@));
                }
                lemma_map_of_update(before, after, p as int, pair);
            }
        } else {
            let ghost pair = (key, value);
            proof {
                if p < before.len() {
                    law_text_order_total(before[p as int].0@, key@);
                }
            }
            self.entries.insert(p, (key, value));
            proof {
                let after = self.entries@;
                assert(after == before.insert(p as int, pair));
                lemma_insert_ascending(before, after, p as int, pair);
            }
        }
    }
}

proof fn lemma_map_of_update<V>(
    before: Seq<(String, V)>,
    after: Seq<(String, V)>,
    p: int,
    pair: (String, V),
)
    requires
        ascending(before),
        ascending(after),
        0 <= p < before.len(),
        before[p].0@ == pair.0@,
        after == before.update(p, pair),
    ensures
        entries_map(after) == entries_map(before).insert(pair.0@, pair.1),
{
    let lhs = entries_map(after);
    let rhs = entries_map(before).insert(pair.0@, pair.1);
    assert forall|k: Seq<char>| lhs.dom().contains(k) == rhs.dom().contains(k) by {
        if has_key(after, k) {
            let i = index_of_key(after, k);
            assert(before[i].0@ == k);
        }
        if has_key(before, k) {
            let i = index_of_key(before, k);
            assert(after[i].0@ == k);
        }
        assert(after[p].0@ == pair.0@);
    }
    assert forall|k: Seq<char>| lhs.dom().contains(k) implies lhs[k] == rhs[k] by {
        let i = index_of_key(after, k);
        assert(after[i].0@ == k);
        assert(before[i].0@ == k);
        lemma_key_index(after, i);
        lemma_key_index(before, i);
        lemma_key_index(after, p);
    }
    assert(lhs =~= rhs);
}

proof fn lemma_insert_ascending<V>(
    before: Seq<(String, V)>,
    after: Seq<(String, V)>,
    p: int,
    pair: (String, V),
)
    requires
        ascending(before),
        0 <= p <= before.len(),
        after == before.insert(p, pair),
        forall|i: int| 0 <= i < p ==> text_lt(#[trigger] before[i].0@, pair.0@),
        p < before.len() ==> text_lt(pair.0@, before[p].0@),
    ensures
        ascending(after),
        entries_map(after) == entries_map(before).insert(pair.0@, pair.1),
{
    assert forall|i: int| p <= i < before.len() implies text_lt(
        pair.0@,
        #[trigger] before[i].0@,
    ) by {
        if i > p {
            assert(text_lt(before[p].0@, before[i].0@));
            law_text_order_transitive(pair.0@, before[p].0@, before[i].0@);
        }
    }
    assert forall|i: int, j: int| 0 <= i < j < after.len() implies text_lt(
        #[trigger] after[i].0@,
        #[trigger] after[j].0@,
    ) by {
        let bi = if i < p { i } else { i - 1 };
        let bj = if j < p { j } else { j - 1 };
        if i != p {
            assert(after[i] == before[bi]);
        }
        if j != p {
            assert(after[j] == before[bj]);
        }
        if i != p && j != p {
            assert(text_lt(before[bi].0@, before[bj].0@));
        }
    }
    let lhs = entries_map(after);
    let rhs = entries_map(before).insert(pair.0@, pair.1);
    assert(after[p] == pair);
    assert forall|k: Seq<char>| lhs.dom().contains(k) == rhs.dom().contains(k) by {
        if has_key(after, k) {
            let i = index_of_key(after, k);
            if i != p {
                let bi = if i < p { i } else { i - 1 };
                assert(after[i] == before[bi]);
                assert(before[bi].0@ == k);
            }
        }
        if has_key(before, k) {
            let i = index_of_key(before, k);
            let ai = if i < p { i } else { i + 1 };
            assert(after[ai] == before[i]);
            assert(after[ai].0@ == k);
        }
        if k == pair.0@ {
            assert(after[p].0@ == k);
        }
    }
    assert forall|k: Seq<char>| lhs.dom().contains(k) implies lhs[k] == rhs[k] by {
        let i = index_of_key(after, k);
        assert(after[i].0@ == k);
        lemma_key_index(after, i);
        lemma_key_index(after, p);
        if i != p {
            let bi = if i < p { i } else { i - 1 };
            assert(after[i] == before[bi]);
            lemma_key_index(before, bi);
            if k == pair.0@ {
                law_text_order_total(k, k);
            }
        }
    }
    assert(lhs =~= rhs);
}

/// `out` holds the entries of `all` at the places `at`, which ascend: some entries
/// of `all`, each as often as it was picked, in the order that they have there.
pub open spec fn picks<A>(all: Seq<A>, at: Seq<int>, out: Seq<A>) -> bool {
    &&& at.len() == out.len()
    &&& forall|k: int|
        0 <= k < at.len() ==> 0 <= #[trigger] at[k] < all.len() && out[k] == all[at[k]]
    &&& forall|j: int, k: int| 0 <= j < k < at.len() ==> #[trigger] at[j] < #[trigger] at[k]
}

/// A filter picks the entries that it keeps, and no others.
pub proof fn lemma_filter_picks<A>(all: Seq<A>, keep: spec_fn(A) -> bool) -> (at: Seq<int>)
    ensures
        picks(all, at, all.filter(keep)),
        forall|i: int| 0 <= i < all.len() ==> (#[trigger] at.contains(i) <==> keep(all[i])),
    decreases all.len(),
{
    reveal(Seq::filter);
    if all.len() == 0 {
        Seq::empty()
    } else {
        let t = all.drop_last();
        let before = lemma_filter_picks(t, keep);
        let last = all.len() - 1;
        let at = if keep(all.last()) {
            before.push(last)
        } else {
            before
        };
        assert forall|i: int| 0 <= i < all.len() implies (#[trigger] at.contains(i) <==> keep(
            all[i],
        )) by {
            if i < last {
                assert(t[i] == all[i]);
                assert(before.contains(i) <==> keep(t[i]));
                if before.contains(i) {
                    let k = before.index_of(i);
                    assert(at[k] == i);
                }
                if at.contains(i) {
                    let k = at.index_of(i);
                    assert(before[k] == i);
                }
            } else {
                if keep(all[i]) {
                    assert(at[before.len() as int] == last);
                }
                if at.contains(i) && !keep(all[i]) {
                    let k = before.index_of(i);
                    assert(before[k] < t.len());
                }
            }
        }
        at
    }
}

/// Texts are ordered as in a dictionary: by the first character in which they differ,
/// and where they differ in none the shorter one comes first.
pub proof fn law_first_difference_decides(
    p: Seq<char>,
    a: char,
    b: char,
    x: Seq<char>,
    y: Seq<char>,
)
    ensures
        (a as int) < (b as int) ==> text_lt(p.push(a) + x, p.push(b) + y),
        text_lt(p, p.push(a) + x),
{
    let k = p.len() as int;
    let s = p.push(a) + x;
    let t = p.push(b) + y;
    assert(s.take(k) =~= p);
    assert(t.take(k) =~= p);
    assert(p.take(k) =~= p);
    assert(s[k] == a && t[k] == b);
    if (a as int) < (b as int) {
        assert(parts_at(s, t, k));
    }
    assert(parts_at(p, s, k));
}

} // verus!
