use vstd::multiset::Multiset;
use vstd::prelude::*;

verus! {

/// `i` is the hit among intersection parameters ordered by `keys`: its key is
/// positive, no positive key is smaller, and no earlier positive key equals it.
///
/// A key is any integer with the same order as the parameter `t` it stands
/// for, zero standing for `t == 0`.
pub open spec fn is_hit(keys: Seq<i64>, i: int) -> bool {
    &&& 0 <= i < keys.len()
    &&& keys[i] > 0
    &&& forall|j: int| 0 <= j < keys.len() && keys[j] > 0 ==> keys[i] <= keys[j]
    &&& forall|j: int| 0 <= j < i && keys[j] > 0 ==> keys[i] < keys[j]
}

/// Whether some key is positive, that is, whether the ray hits anything ahead of it.
pub open spec fn has_hit(keys: Seq<i64>) -> bool {
    exists|j: int| 0 <= j < keys.len() && keys[j] > 0
}

/// Entries are in ascending order of key.
pub open spec fn sorted_by_key<T>(s: Seq<(i64, T)>) -> bool {
    forall|i: int, j: int| 0 <= i < j < s.len() ==> s[i].0 <= s[j].0
}

/// `s` with `e` placed after every entry whose key is not greater than its own.
pub open spec fn insert_sorted<T>(s: Seq<(i64, T)>, e: (i64, T)) -> Seq<(i64, T)>
    decreases s.len(),
{
    if s.len() == 0 {
        seq![e]
    } else if s.last().0 <= e.0 {
        s.push(e)
    } else {
        insert_sorted(s.drop_last(), e).push(s.last())
    }
}

/// The entries of `b` placed into `s` one after another, in their order.
pub open spec fn insert_all<T>(s: Seq<(i64, T)>, b: Seq<(i64, T)>) -> Seq<(i64, T)>
    decreases b.len(),
{
    if b.len() == 0 {
        s
    } else {
        insert_sorted(insert_all(s, b.drop_last()), b.last())
    }
}

/// The keys of a sequence of entries.
pub open spec fn keys_of<T>(s: Seq<(i64, T)>) -> Seq<i64> {
    s.map_values(|e: (i64, T)| e.0)
}

proof fn lemma_insert_at<T>(s: Seq<(i64, T)>, e: (i64, T), p: int)
    requires
        0 <= p <= s.len(),
        forall|j: int| 0 <= j < p ==> s[j].0 <= e.0,
        forall|j: int| p <= j < s.len() ==> s[j].0 > e.0,
    ensures
        insert_sorted(s, e) == s.insert(p, e),
    decreases s.len(),
{
    if s.len() == 0 {
        assert(s.insert(p, e) =~= seq![e]);
    } else if s.last().0 <= e.0 {
        assert(p == s.len());
        assert(s.insert(p, e) =~= s.push(e));
    } else {
        lemma_insert_at(s.drop_last(), e, p);
        assert(s.insert(p, e) =~= s.drop_last().insert(p, e).push(s.last()));
    }
}

proof fn lemma_insert_sorted_keeps_entries<T>(s: Seq<(i64, T)>, e: (i64, T))
    ensures
        insert_sorted(s, e).to_multiset() =~= s.to_multiset().insert(e),
    decreases s.len(),
{
    broadcast use vstd::seq_lib::group_to_multiset_ensures;

    if s.len() == 0 {
        assert(seq![e] =~= s.push(e));
    } else if s.last().0 > e.0 {
        let rest = s.drop_last();
        lemma_insert_sorted_keeps_entries(rest, e);
        assert(s =~= rest.push(s.last()));
    }
}

/// Merging intersections loses none and invents none: the entries placed
/// into `s` from `b` are, counted with multiplicity, those of both.
pub proof fn lemma_insert_all_keeps_entries<T>(s: Seq<(i64, T)>, b: Seq<(i64, T)>)
    ensures
        insert_all(s, b).to_multiset() =~= s.to_multiset().add(b.to_multiset()),
    decreases b.len(),
{
    broadcast use vstd::seq_lib::group_to_multiset_ensures;

    if b.len() == 0 {
        assert(b.to_multiset().len() == 0);
        assert(b.to_multiset() =~= Multiset::empty());
    } else {
        let rest = b.drop_last();
        lemma_insert_all_keeps_entries(s, rest);
        lemma_insert_sorted_keeps_entries(insert_all(s, rest), b.last());
        assert(b =~= rest.push(b.last()));
    }
}

/// A collection of intersections along one ray, each an item of type `T`
/// under a key that orders it as its parameter `t` does (zero for `t == 0`).
/// It is kept sorted by key; items with equal keys keep their order of arrival.
pub struct Intersections<T> {
    entries: Vec<(i64, T)>,
}

impl<T> View for Intersections<T> {
    type V = Seq<(i64, T)>;

    closed spec fn view(&self) -> Seq<(i64, T)> {
        self.entries@
    }
}

impl<T> Intersections<T> {
    /// An empty collection.
    pub fn new() -> (r: Intersections<T>)
        ensures
            r@ == Seq::<(i64, T)>::empty(),
    {
        Intersections { entries: Vec::new() }
    }

    /// Adds an intersection after every one whose key is not greater.
    pub fn push(&mut self, key: i64, item: T)
        requires
            sorted_by_key(old(self)@),
        ensures
            final(self)@ == insert_sorted(old(self)@, (key, item)),
            final(self)@.to_multiset() == old(self)@.to_multiset().insert((key, item)),
            sorted_by_key(final(self)@),
    {
        proof {
            lemma_insert_sorted_keeps_entries(self@, (key, item));
        }
        let mut p: usize = self.entries.len();
        while p > 0 && self.entries[p - 1].0 > key
            invariant
                p <= self.entries@.len(),
                self.entries@ == old(self)@,
                sorted_by_key(self.entries@),
                forall|j: int| p <= j < self.entries@.len() ==> self.entries@[j].0 > key,
            decreases p,
        {
            p = p - 1;
        }
        let ghost s = self.entries@;
        proof {
            assert forall|j: int| 0 <= j < p implies s[j].0 <= key by {
                if p > 0 {
                    assert(s[p - 1].0 <= key);
                }
            }
            lemma_insert_at(s, (key, item), p as int);
        }
        self.entries.insert(p, (key, item));
        proof {
            let t = self.entries@;
            assert forall|i: int, j: int| 0 <= i < j < t.len() implies t[i].0 <= t[j].0 by {
                let i0 = if i < p { i } else if i == p { -1 } else { i - 1 };
                let j0 = if j < p { j } else if j == p { -1 } else { j - 1 };
                if i0 >= 0 && j0 >= 0 {
                    assert(t[i] == s[i0] && t[j] == s[j0]);
                }
            }
        }
    }

    /// Adds every intersection of `other`, in its order, as `push` would.
    pub fn append(&mut self, other: Intersections<T>)
        requires
            sorted_by_key(old(self)@),
        ensures
            final(self)@ == insert_all(old(self)@, other@),
            final(self)@.to_multiset() == old(self)@.to_multiset().add(other@.to_multiset()),
            sorted_by_key(final(self)@),
    {
        proof {
            lemma_insert_all_keeps_entries(self@, other@);
        }
        let mut rest = other.entries;
        let ghost b = rest@;
        let ghost start = self@;
        let total = rest.len();
        let mut i: usize = 0;
        assert(b.take(0) =~= Seq::<(i64, T)>::empty());
        assert(rest@ =~= b.skip(0));
        while rest.len() > 0
            invariant
                i + rest@.len() == b.len(),
                b.len() == total,
                rest@ == b.skip(i as int),
                self@ == insert_all(start, b.take(i as int)),
                sorted_by_key(self@),
            decreases rest@.len(),
        {
            let (key, item) = rest.remove(0);
            proof {
                assert(b.take(i + 1).drop_last() =~= b.take(i as int));
                assert(b.take(i + 1).last() == b[i as int]);
            }
            self.push(key, item);
            i = i + 1;
            assert(rest@ =~= b.skip(i as int));
        }
        assert(b.take(i as int) =~= b);
    }

    /// The number of intersections.
    pub fn len(&self) -> (r: usize)
        ensures
            r == self@.len(),
    {
        self.entries.len()
    }

    /// The key and item at position `i`.
    pub fn get(&self, i: usize) -> (r: &(i64, T))
        requires
            i < self@.len(),
        ensures
            *r == self@[i as int],
    {
        &self.entries[i]
    }

    /// Position of the visible intersection: the smallest positive key, the
    /// earliest of equal ones; `None` when no key is positive.
    pub fn hit(&self) -> (r: Option<usize>)
        requires
            sorted_by_key(self@),
        ensures
            r is None <==> !has_hit(keys_of(self@)),
            r matches Some(i) ==> is_hit(keys_of(self@), i as int),
    {
        let ghost keys = keys_of(self@);
        let mut j: usize = 0;
        while j < self.entries.len() && self.entries[j].0 <= 0
            invariant
                j <= self@.len(),
                keys == keys_of(self@),
                forall|k: int| 0 <= k < j ==> keys[k] <= 0,
            decreases self@.len() - j,
        {
            j = j + 1;
        }
        if j < self.entries.len() {
            proof {
                assert forall|k: int| 0 <= k < keys.len() && keys[k] > 0 implies keys[j as int] <= keys[k] by {
                    if k > j {
                        assert(self@[j as int].0 <= self@[k].0);
                    }
                }
            }
            assert(keys[j as int] > 0);
            assert(has_hit(keys));
            Some(j)
        } else {
            assert(!has_hit(keys));
            None
        }
    }
}

} // verus!
