//! Keyed indexes: string keys, each with the items filed under it.
//!
//! An index never copies the records it describes: it holds positions into
//! the list that owns them.
use vstd::prelude::*;

verus! {

/// An index from string keys to the items filed under them. Keys stand in the
/// order in which they were first filed.
#[derive(Clone, Debug, PartialEq)]
pub struct KeyedIndex<T> {
    pub entries: Vec<(String, Vec<T>)>,
}

impl<T> View for KeyedIndex<T> {
    type V = Seq<(Seq<char>, Seq<T>)>;

    open spec fn view(&self) -> Seq<(Seq<char>, Seq<T>)> {
        self.entries@.map_values(|e: (String, Vec<T>)| (e.0@, e.1@))
    }
}

/// Position of the first entry of `idx` under key `k`, or -1 where there is none.
pub open spec fn slot_of<T>(idx: Seq<(Seq<char>, Seq<T>)>, k: Seq<char>) -> int
    decreases idx.len(),
{
    if idx.len() == 0 {
        -1
    } else if idx[0].0 == k {
        0
    } else {
        let r = slot_of(idx.drop_first(), k);
        if r < 0 {
            -1
        } else {
            r + 1
        }
    }
}

/// The items filed under `k`; empty where `k` is absent.
pub open spec fn lookup<T>(idx: Seq<(Seq<char>, Seq<T>)>, k: Seq<char>) -> Seq<T> {
    let s = slot_of(idx, k);
    if s < 0 {
        Seq::empty()
    } else {
        idx[s].1
    }
}

/// `idx` with `item` appended under `k`; a new key goes last.
pub open spec fn file_under<T>(idx: Seq<(Seq<char>, Seq<T>)>, k: Seq<char>, item: T) -> Seq<
    (Seq<char>, Seq<T>),
> {
    let s = slot_of(idx, k);
    if s < 0 {
        idx.push((k, seq![item]))
    } else {
        idx.update(s, (k, idx[s].1.push(item)))
    }
}

/// The index that files each of `items` in turn, keeping the order of arrival
/// within each key.
pub open spec fn filed<T>(items: Seq<(Seq<char>, T)>) -> Seq<(Seq<char>, Seq<T>)>
    decreases items.len(),
{
    if items.len() == 0 {
        Seq::empty()
    } else {
        file_under(filed(items.drop_last()), items.last().0, items.last().1)
    }
}

/// The items of `items` whose key is `k`, in order.
pub open spec fn items_under<T>(items: Seq<(Seq<char>, T)>, k: Seq<char>) -> Seq<T>
    decreases items.len(),
{
    if items.len() == 0 {
        Seq::empty()
    } else if items.last().0 == k {
        items_under(items.drop_last(), k).push(items.last().1)
    } else {
        items_under(items.drop_last(), k)
    }
}

/// A dated entry: its key and its date, or `None` where the record is left
/// out of the index.
pub type DatedEntry = Option<(Seq<char>, i64)>;

/// The date of entry `i` (0 where it has none).
pub open spec fn date_at(e: Seq<DatedEntry>, i: int) -> int {
    match e[i] {
        Some(p) => p.1 as int,
        None => 0,
    }
}

/// The position in group `g` at which an entry dated `d` goes: the first
/// position holding an older entry, or the end.
pub open spec fn first_older(g: Seq<usize>, e: Seq<DatedEntry>, d: int) -> int
    decreases g.len(),
{
    if g.len() == 0 {
        0
    } else if date_at(e, g[0] as int) < d {
        0
    } else {
        1 + first_older(g.drop_first(), e, d)
    }
}

/// `idx` with entry `i` of `e` filed under its key, newest first and after
/// any entry of the same date.
pub open spec fn file_newest_first(
    idx: Seq<(Seq<char>, Seq<usize>)>,
    e: Seq<DatedEntry>,
    i: usize,
) -> Seq<(Seq<char>, Seq<usize>)> {
    match e[i as int] {
        None => idx,
        Some(p) => {
            let s = slot_of(idx, p.0);
            if s < 0 {
                idx.push((p.0, seq![i]))
            } else {
                idx.update(s, (p.0, idx[s].1.insert(first_older(idx[s].1, e, p.1 as int), i)))
            }
        },
    }
}

/// The index of the first `n` entries of `e`, each group newest first.
pub open spec fn dated_index(e: Seq<DatedEntry>, n: int) -> Seq<(Seq<char>, Seq<usize>)>
    decreases n,
{
    if n <= 0 {
        Seq::empty()
    } else {
        file_newest_first(dated_index(e, n - 1), e, (n - 1) as usize)
    }
}

/// Group `g` runs from newest to oldest; entries of one date keep their order.
pub open spec fn newest_first(g: Seq<usize>, e: Seq<DatedEntry>) -> bool {
    forall|a: int, b: int|
        0 <= a < b < g.len() ==> date_at(e, g[a] as int) > date_at(e, g[b] as int) || (date_at(
            e,
            g[a] as int,
        ) == date_at(e, g[b] as int) && g[a] < g[b])
}

/// Every position in `idx` is below `n`, names an entry of `e` under that key,
/// and every group runs newest first.
pub open spec fn dated_wf(idx: Seq<(Seq<char>, Seq<usize>)>, e: Seq<DatedEntry>, n: int) -> bool {
    &&& forall|j: int, x: int|
        #![trigger idx[j].1[x]]
        0 <= j < idx.len() && 0 <= x < idx[j].1.len() ==> {
            let i = idx[j].1[x] as int;
            &&& i < n
            &&& e[i] is Some
            &&& (e[i]->0).0 == idx[j].0
        }
    &&& forall|j: int| 0 <= j < idx.len() ==> newest_first(#[trigger] idx[j].1, e)
}

pub proof fn lemma_slot_of<T>(idx: Seq<(Seq<char>, Seq<T>)>, k: Seq<char>)
    ensures
        -1 <= slot_of(idx, k) < idx.len(),
        slot_of(idx, k) >= 0 ==> idx[slot_of(idx, k)].0 == k,
        forall|j: int|
            0 <= j < idx.len() && (slot_of(idx, k) < 0 || j < slot_of(idx, k)) ==> idx[j].0 != k,
    decreases idx.len(),
{
    if idx.len() > 0 && idx[0].0 != k {
        let rest = idx.drop_first();
        lemma_slot_of(rest, k);
        assert forall|j: int|
            0 <= j < idx.len() && (slot_of(idx, k) < 0 || j < slot_of(idx, k)) implies idx[j].0
            != k by {
            if j > 0 {
                assert(idx[j] == rest[j - 1]);
            }
        }
    }
}

/// The first position under key `k` is determined by where `k` first occurs.
pub proof fn lemma_slot_is<T>(idx: Seq<(Seq<char>, Seq<T>)>, k: Seq<char>, s: int)
    requires
        -1 <= s < idx.len(),
        s >= 0 ==> idx[s].0 == k,
        forall|j: int| 0 <= j < idx.len() && (s < 0 || j < s) ==> idx[j].0 != k,
    ensures
        slot_of(idx, k) == s,
{
    lemma_slot_of(idx, k);
    let t = slot_of(idx, k);
    if t >= 0 && s >= 0 {
        assert(!(t < s));
        assert(!(s < t));
    }
}

proof fn lemma_file_under_lookup<T>(
    idx: Seq<(Seq<char>, Seq<T>)>,
    k2: Seq<char>,
    item: T,
    k: Seq<char>,
)
    ensures
        lookup(file_under(idx, k2, item), k) == if k == k2 {
            lookup(idx, k).push(item)
        } else {
            lookup(idx, k)
        },
{
    let s2 = slot_of(idx, k2);
    let s = slot_of(idx, k);
    let nw = file_under(idx, k2, item);
    lemma_slot_of(idx, k2);
    lemma_slot_of(idx, k);
    if k == k2 {
        if s < 0 {
            lemma_slot_is(nw, k, idx.len() as int);
            assert(seq![item] =~= Seq::<T>::empty().push(item));
        } else {
            lemma_slot_is(nw, k, s);
        }
    } else {
        if s2 < 0 {
            lemma_slot_is(nw, k, s);
        } else {
            lemma_slot_is(nw, k, s);
        }
    }
}

/// Filing keeps, under each key, exactly the items of that key in their order.
pub proof fn lemma_filed_lookup<T>(items: Seq<(Seq<char>, T)>, k: Seq<char>)
    ensures
        lookup(filed(items), k) == items_under(items, k),
    decreases items.len(),
{
    if items.len() > 0 {
        lemma_filed_lookup(items.drop_last(), k);
        lemma_file_under_lookup(filed(items.drop_last()), items.last().0, items.last().1, k);
    } else {
        lemma_slot_of(filed(items), k);
    }
}

proof fn lemma_first_older(g: Seq<usize>, e: Seq<DatedEntry>, d: int)
    ensures
        0 <= first_older(g, e, d) <= g.len(),
        forall|x: int| 0 <= x < first_older(g, e, d) ==> date_at(e, g[x] as int) >= d,
        first_older(g, e, d) < g.len() ==> date_at(e, g[first_older(g, e, d)] as int) < d,
    decreases g.len(),
{
    if g.len() > 0 && date_at(e, g[0] as int) >= d {
        let rest = g.drop_first();
        lemma_first_older(rest, e, d);
        assert forall|x: int| 0 <= x < first_older(g, e, d) implies date_at(e, g[x] as int) >= d by {
            if x > 0 {
                assert(g[x] == rest[x - 1]);
            }
        }
    }
}

proof fn lemma_first_older_is(g: Seq<usize>, e: Seq<DatedEntry>, d: int, p: int)
    requires
        0 <= p <= g.len(),
        forall|x: int| 0 <= x < p ==> date_at(e, g[x] as int) >= d,
        p < g.len() ==> date_at(e, g[p] as int) < d,
    ensures
        first_older(g, e, d) == p,
{
    lemma_first_older(g, e, d);
    let q = first_older(g, e, d);
    assert(!(q < p));
    assert(!(p < q));
}

proof fn lemma_insert_newest_first(g: Seq<usize>, e: Seq<DatedEntry>, i: usize)
    requires
        newest_first(g, e),
        forall|x: int| 0 <= x < g.len() ==> g[x] < i,
    ensures
        newest_first(g.insert(first_older(g, e, date_at(e, i as int)), i), e),
{
    let d = date_at(e, i as int);
    let p = first_older(g, e, d);
    lemma_first_older(g, e, d);
    let h = g.insert(p, i);
    assert forall|a: int, b: int| 0 <= a < b < h.len() implies date_at(e, h[a] as int) > date_at(
        e,
        h[b] as int,
    ) || (date_at(e, h[a] as int) == date_at(e, h[b] as int) && h[a] < h[b]) by {
        if b < p {
            assert(h[a] == g[a] && h[b] == g[b]);
        } else if b == p {
            assert(h[a] == g[a]);
        } else if a < p {
            assert(h[a] == g[a] && h[b] == g[b - 1]);
            if p < g.len() {
                assert(date_at(e, g[p] as int) < d);
                if b - 1 > p {
                    assert(date_at(e, g[p] as int) >= date_at(e, g[b - 1] as int));
                }
            }
        } else if a == p {
            assert(h[b] == g[b - 1]);
            if b - 1 > p {
                assert(date_at(e, g[p] as int) >= date_at(e, g[b - 1] as int));
            }
        } else {
            assert(h[a] == g[a - 1] && h[b] == g[b - 1]);
        }
    }
}

/// Each dated index is well formed: positions stay in range and under their
/// key, and every group runs newest first.
pub proof fn lemma_dated_wf(e: Seq<DatedEntry>, n: int)
    requires
        0 <= n <= e.len(),
        e.len() <= usize::MAX,
    ensures
        dated_wf(dated_index(e, n), e, n),
    decreases n,
{
    if n > 0 {
        lemma_dated_wf(e, n - 1);
        let old_idx = dated_index(e, n - 1);
        let i = (n - 1) as usize;
        let idx = dated_index(e, n);
        match e[i as int] {
            None => {},
            Some(p) => {
                let s = slot_of(old_idx, p.0);
                lemma_slot_of(old_idx, p.0);
                if s < 0 {
                    assert forall|j: int| 0 <= j < idx.len() implies newest_first(
                        #[trigger] idx[j].1,
                        e,
                    ) by {
                        if j < old_idx.len() {
                            assert(idx[j] == old_idx[j]);
                        }
                    }
                } else {
                    let g = old_idx[s].1;
                    assert forall|x: int| 0 <= x < g.len() implies g[x] < i by {
                        assert(g[x] == old_idx[s].1[x]);
                    }
                    lemma_insert_newest_first(g, e, i);
                    lemma_first_older(g, e, p.1 as int);
                    let q = first_older(g, e, p.1 as int);
                    let h = g.insert(q, i);
                    assert forall|j: int, x: int|
                        #![trigger idx[j].1[x]]
                        0 <= j < idx.len() && 0 <= x < idx[j].1.len() implies {
                        let ii = idx[j].1[x] as int;
                        &&& ii < n
                        &&& e[ii] is Some
                        &&& (e[ii]->0).0 == idx[j].0
                    } by {
                        if j == s {
                            if x < q {
                                assert(h[x] == old_idx[s].1[x]);
                            } else if x > q {
                                assert(h[x] == old_idx[s].1[x - 1]);
                            }
                        } else {
                            assert(idx[j] == old_idx[j]);
                            assert(idx[j].1[x] == old_idx[j].1[x]);
                        }
                    }
                }
            },
        }
    }
}

proof fn lemma_file_newest_first_lookup(
    idx: Seq<(Seq<char>, Seq<usize>)>,
    e: Seq<DatedEntry>,
    i: usize,
    k: Seq<char>,
)
    requires
        i < e.len(),
    ensures
        lookup(file_newest_first(idx, e, i), k) == if e[i as int] is Some && (e[i as int]->0).0
            == k {
            let g = lookup(idx, k);
            g.insert(first_older(g, e, date_at(e, i as int)), i)
        } else {
            lookup(idx, k)
        },
{
    match e[i as int] {
        None => {},
        Some(p) => {
            let k2 = p.0;
            let nw = file_newest_first(idx, e, i);
            let s2 = slot_of(idx, k2);
            let s = slot_of(idx, k);
            lemma_slot_of(idx, k2);
            lemma_slot_of(idx, k);
            if k == k2 {
                if s < 0 {
                    lemma_slot_is(nw, k, idx.len() as int);
                    assert(Seq::<usize>::empty().insert(0, i) =~= seq![i]);
                } else {
                    lemma_slot_is(nw, k, s);
                }
            } else {
                lemma_slot_is(nw, k, s);
            }
        },
    }
}

proof fn lemma_insert_fresh(g: Seq<usize>, q: int, j: usize)
    requires
        g.no_duplicates(),
        forall|x: int| 0 <= x < g.len() ==> g[x] < j,
        0 <= q <= g.len(),
    ensures
        g.insert(q, j).no_duplicates(),
{
    let h = g.insert(q, j);
    assert forall|a: int, b: int| 0 <= a < h.len() && 0 <= b < h.len() && a != b implies h[a]
        != h[b] by {
        let a2 = if a < q { a } else { a - 1 };
        let b2 = if b < q { b } else { b - 1 };
        if a == q {
            assert(h[b] == g[b2]);
        } else if b == q {
            assert(h[a] == g[a2]);
        } else {
            assert(h[a] == g[a2] && h[b] == g[b2]);
        }
    }
}

/// Every entry of the first `n` of `e` that is present stands in its key's
/// group.
pub proof fn lemma_dated_complete(e: Seq<DatedEntry>, n: int)
    requires
        0 <= n <= e.len(),
        e.len() <= usize::MAX,
    ensures
        forall|i: int|
            0 <= i < n && #[trigger] e[i] is Some ==> lookup(dated_index(e, n), (e[i]->0).0).contains(
                i as usize,
            ),
    decreases n,
{
    if n > 0 {
        lemma_dated_complete(e, n - 1);
        let old_idx = dated_index(e, n - 1);
        let j = (n - 1) as usize;
        assert forall|i: int|
            0 <= i < n && #[trigger] e[i] is Some implies lookup(dated_index(e, n), (e[i]->0).0).contains(
            i as usize,
        ) by {
            let k = (e[i]->0).0;
            lemma_file_newest_first_lookup(old_idx, e, j, k);
            let g = lookup(old_idx, k);
            let q = first_older(g, e, date_at(e, j as int));
            lemma_first_older(g, e, date_at(e, j as int));
            if e[j as int] is Some && (e[j as int]->0).0 == k {
                let h = g.insert(q, j);
                if i == n - 1 {
                    assert(h[q] == j);
                } else {
                    assert(g.contains(i as usize));
                    let x = choose|x: int| 0 <= x < g.len() && g[x] == i as usize;
                    if x < q {
                        assert(h[x] == i as usize);
                    } else {
                        assert(h[x + 1] == i as usize);
                    }
                }
            }
        }
    }
}

/// No entry stands twice in a group.
pub proof fn lemma_dated_distinct(e: Seq<DatedEntry>, n: int, k: Seq<char>)
    requires
        0 <= n <= e.len(),
        e.len() <= usize::MAX,
    ensures
        lookup(dated_index(e, n), k).no_duplicates(),
    decreases n,
{
    if n > 0 {
        lemma_dated_distinct(e, n - 1, k);
        lemma_dated_wf(e, n - 1);
        let old_idx = dated_index(e, n - 1);
        let j = (n - 1) as usize;
        lemma_file_newest_first_lookup(old_idx, e, j, k);
        let g = lookup(old_idx, k);
        if e[j as int] is Some && (e[j as int]->0).0 == k {
            lemma_first_older(g, e, date_at(e, j as int));
            lemma_slot_of(old_idx, k);
            assert forall|x: int| 0 <= x < g.len() implies g[x] < j by {
                let s = slot_of(old_idx, k);
                assert(g[x] == old_idx[s].1[x]);
            }
            lemma_insert_fresh(g, first_older(g, e, date_at(e, j as int)), j);
        }
    }
}

/// No key stands twice in `idx`.
pub open spec fn keys_distinct<T>(idx: Seq<(Seq<char>, Seq<T>)>) -> bool {
    forall|a: int, b: int| 0 <= a < b < idx.len() ==> #[trigger] idx[a].0 != #[trigger] idx[b].0
}

/// Adding a key that is absent, or replacing the group of a key that is
/// present, keeps the keys distinct.
proof fn lemma_set_group_distinct<T>(idx: Seq<(Seq<char>, Seq<T>)>, k: Seq<char>, g: Seq<T>)
    requires
        keys_distinct(idx),
    ensures
        slot_of(idx, k) < 0 ==> keys_distinct(idx.push((k, g))),
        slot_of(idx, k) >= 0 ==> keys_distinct(idx.update(slot_of(idx, k), (k, g))),
{
    lemma_slot_of(idx, k);
    let s = slot_of(idx, k);
    if s < 0 {
        let nw = idx.push((k, g));
        assert forall|a: int, b: int| 0 <= a < b < nw.len() implies #[trigger] nw[a].0
            != #[trigger] nw[b].0 by {
            assert(nw[a] == idx[a]);
            if b < idx.len() {
                assert(nw[b] == idx[b]);
            }
        }
    } else {
        let nw = idx.update(s, (k, g));
        assert forall|a: int, b: int| 0 <= a < b < nw.len() implies #[trigger] nw[a].0
            != #[trigger] nw[b].0 by {
            if a != s {
                assert(nw[a] == idx[a]);
            }
            if b != s {
                assert(nw[b] == idx[b]);
            }
        }
    }
}

/// Filing keeps one entry per key.
pub proof fn lemma_filed_keys_distinct<T>(items: Seq<(Seq<char>, T)>)
    ensures
        keys_distinct(filed(items)),
    decreases items.len(),
{
    if items.len() > 0 {
        let prev = filed(items.drop_last());
        lemma_filed_keys_distinct(items.drop_last());
        let k = items.last().0;
        let s = slot_of(prev, k);
        lemma_set_group_distinct(prev, k, seq![items.last().1]);
        if s >= 0 {
            lemma_set_group_distinct(prev, k, prev[s].1.push(items.last().1));
        }
    }
}

/// A dated index keeps one entry per key.
pub proof fn lemma_dated_keys_distinct(e: Seq<DatedEntry>, n: int)
    requires
        0 <= n <= e.len(),
        e.len() <= usize::MAX,
    ensures
        keys_distinct(dated_index(e, n)),
    decreases n,
{
    if n > 0 {
        lemma_dated_keys_distinct(e, n - 1);
        let prev = dated_index(e, n - 1);
        assert(((n - 1) as usize) as int == n - 1);
        match e[n - 1] {
            None => {},
            Some(p) => {
                let s = slot_of(prev, p.0);
                lemma_set_group_distinct(prev, p.0, seq![(n - 1) as usize]);
                if s >= 0 {
                    lemma_set_group_distinct(
                        prev,
                        p.0,
                        prev[s].1.insert(first_older(prev[s].1, e, p.1 as int), (n - 1) as usize),
                    );
                }
            },
        }
    }
}

impl<T> KeyedIndex<T> {
    /// An empty index.
    pub fn new() -> (r: Self)
        ensures
            r@ == Seq::<(Seq<char>, Seq<T>)>::empty(),
    {
        let r = KeyedIndex { entries: Vec::new() };
        assert(r@ =~= Seq::<(Seq<char>, Seq<T>)>::empty());
        r
    }

    /// Where key `k` stands, if it is present.
    pub fn find_slot(&self, k: &str) -> (r: Option<usize>)
        ensures
            match r {
                None => slot_of(self@, k@) < 0,
                Some(j) => j < self.entries.len() && slot_of(self@, k@) == j,
            },
    {
        let mut j: usize = 0;
        while j < self.entries.len()
            invariant
                j <= self.entries.len(),
                forall|jj: int| 0 <= jj < j ==> self@[jj].0 != k@,
            decreases self.entries.len() - j,
        {
            if crate::text::str_equals(self.entries[j].0.as_str(), k) {
                proof {
                    lemma_slot_is(self@, k@, j as int);
                }
                return Some(j);
            }
            j += 1;
        }
        proof {
            lemma_slot_is(self@, k@, -1);
        }
        None
    }

    /// The items filed under `k` (none where `k` is absent).
    pub fn get(&self, k: &str) -> (r: &[T])
        ensures
            r@ == lookup(self@, k@),
    {
        match self.find_slot(k) {
            Some(j) => self.entries[j].1.as_slice(),
            None => {
                let r: &[T] = &[];
                assert(r@ =~= Seq::<T>::empty());
                r
            },
        }
    }

    /// The keys of the index, in order.
    pub fn keys(&self) -> (r: Vec<String>)
        ensures
            r.len() == self@.len(),
            forall|x: int| 0 <= x < r.len() ==> #[trigger] r@[x]@ == self@[x].0,
    {
        let mut r: Vec<String> = Vec::new();
        let mut j: usize = 0;
        while j < self.entries.len()
            invariant
                j <= self.entries.len(),
                r.len() == j,
                forall|x: int| 0 <= x < j ==> #[trigger] r@[x]@ == self@[x].0,
            decreases self.entries.len() - j,
        {
            let key = self.entries[j].0.clone();
            r.push(key);
            j += 1;
        }
        r
    }

    /// Files `item` under `k`, after the items already there.
    pub fn file(&mut self, k: String, item: T)
        ensures
            final(self)@ == file_under(old(self)@, k@, item),
    {
        match self.find_slot(k.as_str()) {
            None => {
                let mut g: Vec<T> = Vec::new();
                g.push(item);
                let ghost kv = k@;
                self.entries.push((k, g));
                assert(final(self)@ =~= old(self)@.push((kv, seq![item])));
            },
            Some(j) => {
                proof {
                    lemma_slot_of(old(self)@, k@);
                }
                let mut slot: (String, Vec<T>) = (String::new(), Vec::new());
                self.entries.set_and_swap(j, &mut slot);
                slot.1.push(item);
                self.entries.set(j, slot);
                assert(final(self)@ =~= file_under(old(self)@, k@, item));
            },
        }
    }
}

/// Keyed items with their keys seen as characters.
pub open spec fn pairs_view<T>(v: Seq<(String, T)>) -> Seq<(Seq<char>, T)> {
    v.map_values(|p: (String, T)| (p.0@, p.1))
}

/// Files each of `items` in turn.
pub fn file_all<T>(items: Vec<(String, T)>) -> (r: KeyedIndex<T>)
    ensures
        r@ == filed(pairs_view(items@)),
{
    let ghost all = pairs_view(items@);
    let mut rest = items;
    let mut r: KeyedIndex<T> = KeyedIndex::new();
    let ghost mut n: int = 0;
    while rest.len() > 0
        invariant
            0 <= n <= all.len(),
            rest.len() == all.len() - n,
            pairs_view(rest@) =~= all.skip(n),
            r@ == filed(all.take(n)),
        decreases rest.len(),
    {
        proof {
            assert(pairs_view(rest@)[0] == all[n]);
        }
        let ghost before = rest@;
        let (k, item) = rest.remove(0);
        proof {
            assert forall|x: int| 0 <= x < rest.len() implies #[trigger] pairs_view(rest@)[x]
                == all.skip(n + 1)[x] by {
                assert(rest@[x] == before[x + 1]);
                assert(pairs_view(before)[x + 1] == all.skip(n)[x + 1]);
            }
            assert(pairs_view(rest@) =~= all.skip(n + 1));
            assert(all.take(n + 1).drop_last() =~= all.take(n));
            assert(all[n] == (k@, item));
        }
        r.file(k, item);
        proof {
            n = n + 1;
        }
    }
    assert(all.take(n) =~= all);
    r
}

/// A dated entry held as plain values, seen as characters.
pub open spec fn entry_view(o: Option<(String, i64)>) -> DatedEntry {
    match o {
        Some(p) => Some((p.0@, p.1)),
        None => None,
    }
}

/// The view of dated entries held as plain values.
pub open spec fn dated_view(entries: Seq<Option<(String, i64)>>) -> Seq<DatedEntry> {
    entries.map_values(|o: Option<(String, i64)>| entry_view(o))
}

fn date_of(entries: &Vec<Option<(String, i64)>>, i: usize) -> (d: i64)
    requires
        i < entries.len(),
    ensures
        d as int == date_at(dated_view(entries@), i as int),
{
    match &entries[i] {
        Some(p) => p.1,
        None => 0,
    }
}

/// Builds the index of `entries`: each present entry filed under its key,
/// keys in the order of their first entry, each group newest first and
/// entries of one date in their order (as a stable sort of the group by
/// descending date would leave them).
pub fn cache_by_date(entries: &Vec<Option<(String, i64)>>) -> (r: KeyedIndex<usize>)
    ensures
        r@ == dated_index(dated_view(entries@), entries.len() as int),
{
    let ghost e = dated_view(entries@);
    let mut r: KeyedIndex<usize> = KeyedIndex::new();
    let mut i: usize = 0;
    while i < entries.len()
        invariant
            i <= entries.len(),
            e == dated_view(entries@),
            r@ == dated_index(e, i as int),
        decreases entries.len() - i,
    {
        proof {
            lemma_dated_wf(e, i as int);
        }
        match &entries[i] {
            None => {},
            Some(p) => {
                let d = p.1;
                match r.find_slot(p.0.as_str()) {
                    None => {
                        let mut g: Vec<usize> = Vec::new();
                        g.push(i);
                        r.entries.push((p.0.clone(), g));
                        assert(r@ =~= dated_index(e, i as int + 1));
                    },
                    Some(j) => {
                        let ghost before = r@;
                        let mut slot: (String, Vec<usize>) = (String::new(), Vec::new());
                        r.entries.set_and_swap(j, &mut slot);
                        let ghost g = slot.1@;
                        assert(g == before[j as int].1);
                        assert forall|x: int| 0 <= x < g.len() implies g[x] < i by {
                            assert(g[x] == before[j as int].1[x]);
                        }
                        let mut q: usize = 0;
                        while q < slot.1.len() && date_of(entries, slot.1[q]) >= d
                            invariant
                                q <= slot.1.len(),
                                slot.1@ == g,
                                forall|x: int| 0 <= x < g.len() ==> g[x] < i,
                                i < entries.len(),
                                e == dated_view(entries@),
                                forall|x: int| 0 <= x < q ==> date_at(e, g[x] as int) >= d,
                            decreases slot.1.len() - q,
                        {
                            q += 1;
                        }
                        proof {
                            lemma_first_older_is(g, e, d as int, q as int);
                        }
                        slot.1.insert(q, i);
                        r.entries.set(j, slot);
                        proof {
                            lemma_slot_of(before, p.0@);
                            assert(((i as int + 1) - 1) as usize == i);
                        }
                        assert(r@ =~= dated_index(e, i as int + 1));
                    },
                }
            },
        }
        i += 1;
    }
    r
}

} // verus!
