//! Maps keyed by strings, kept as a vector of distinct keys in insertion
//! order (the order in which the map is walked).
use vstd::prelude::*;
use crate::strs::str_eq;

verus! {

/// Values that can be duplicated with the same view.
pub trait Dup: View + Sized {
    fn dup(&self) -> (r: Self)
        ensures
            r@ == self@,
    ;
}

impl Dup for String {
    fn dup(&self) -> (r: Self) {
        self.clone()
    }
}

/// The view of the entries: keys by their contents, values by their views.
pub open spec fn entries_view<V: View>(s: Seq<(String, V)>) -> Seq<(Seq<char>, V::V)> {
    s.map_values(|e: (String, V)| (e.0@, e.1@))
}

/// The map that a sequence of entries with distinct keys stands for.
pub open spec fn seq_to_map<K, W>(s: Seq<(K, W)>) -> Map<K, W>
    decreases s.len(),
{
    if s.len() == 0 {
        Map::empty()
    } else {
        seq_to_map(s.drop_last()).insert(s.last().0, s.last().1)
    }
}

/// No key occurs twice.
pub open spec fn distinct_keys<K, W>(s: Seq<(K, W)>) -> bool {
    forall|i: int, j: int| 0 <= i < j < s.len() ==> s[i].0 != s[j].0
}

pub proof fn lemma_seq_to_map<K, W>(s: Seq<(K, W)>)
    requires
        distinct_keys(s),
    ensures
        forall|k: K| #[trigger]
            seq_to_map(s).contains_key(k) <==> exists|i: int| 0 <= i < s.len() && s[i].0 == k,
        forall|i: int| 0 <= i < s.len() ==> #[trigger] seq_to_map(s)[s[i].0] == s[i].1,
        seq_to_map(s).dom().finite(),
        seq_to_map(s).len() == s.len(),
    decreases s.len(),
{
    if s.len() > 0 {
        let t = s.drop_last();
        assert(distinct_keys(t)) by {
            assert forall|i: int, j: int| 0 <= i < j < t.len() implies t[i].0 != t[j].0 by {
                assert(t[i] == s[i] && t[j] == s[j]);
            }
        }
        lemma_seq_to_map(t);
        assert forall|k: K| #[trigger]
            seq_to_map(s).contains_key(k) <==> exists|i: int| 0 <= i < s.len() && s[i].0 == k by {
            if seq_to_map(s).contains_key(k) && k != s.last().0 {
                let i = choose|i: int| 0 <= i < t.len() && t[i].0 == k;
                assert(s[i] == t[i]);
            }
            if exists|i: int| 0 <= i < s.len() && s[i].0 == k {
                let i = choose|i: int| 0 <= i < s.len() && s[i].0 == k;
                if i < s.len() - 1 {
                    assert(t[i] == s[i]);
                }
            }
        }
        assert forall|i: int| 0 <= i < s.len() implies #[trigger] seq_to_map(s)[s[i].0] == s[i].1 by {
            if i < s.len() - 1 {
                assert(t[i] == s[i]);
                assert(s[i].0 != s.last().0);
            }
        }
        assert(!seq_to_map(t).contains_key(s.last().0)) by {
            if seq_to_map(t).contains_key(s.last().0) {
                let i = choose|i: int| 0 <= i < t.len() && t[i].0 == s.last().0;
                assert(t[i] == s[i]);
            }
        }
    }
}

/// The entries after `insert`: in place when the key is present, at the end
/// otherwise.
pub open spec fn ev_insert<W>(s: Seq<(Seq<char>, W)>, k: Seq<char>, v: W) -> Seq<(Seq<char>, W)> {
    if seq_to_map(s).contains_key(k) {
        s.update(index_of_key_spec(s, k), (k, v))
    } else {
        s.push((k, v))
    }
}

/// The entries after `remove`.
pub open spec fn ev_remove<W>(s: Seq<(Seq<char>, W)>, k: Seq<char>) -> Seq<(Seq<char>, W)> {
    if seq_to_map(s).contains_key(k) {
        s.remove(index_of_key_spec(s, k))
    } else {
        s
    }
}

/// The entries after inserting each of `o`, in order.
pub open spec fn ev_extend<W>(s: Seq<(Seq<char>, W)>, o: Seq<(Seq<char>, W)>) -> Seq<(Seq<char>, W)>
    decreases o.len(),
{
    if o.len() == 0 {
        s
    } else {
        ev_insert(ev_extend(s, o.drop_last()), o.last().0, o.last().1)
    }
}

/// Inserting entries by `ev_insert` keeps keys distinct and inserts into
/// the map.
pub proof fn lemma_ev_insert<W>(s: Seq<(Seq<char>, W)>, k: Seq<char>, v: W)
    requires
        distinct_keys(s),
    ensures
        distinct_keys(ev_insert(s, k, v)),
        seq_to_map(ev_insert(s, k, v)) == seq_to_map(s).insert(k, v),
{
    lemma_seq_to_map(s);
    if seq_to_map(s).contains_key(k) {
        let j = choose|j: int| 0 <= j < s.len() && s[j].0 == k;
        let i = index_of_key_spec(s, k);
        assert(0 <= i < s.len() && s[i].0 == k);
        let t = s.update(i, (k, v));
        assert(distinct_keys(t)) by {
            assert forall|a: int, b: int| 0 <= a < b < t.len() implies t[a].0 != t[b].0 by {
                assert(t[a].0 == s[a].0 && t[b].0 == s[b].0);
            }
        }
        lemma_seq_to_map(t);
        assert(seq_to_map(t) =~= seq_to_map(s).insert(k, v)) by {
            assert forall|q: Seq<char>| #[trigger] seq_to_map(t).contains_key(q) <==> seq_to_map(s).insert(k, v).contains_key(q) by {
                if seq_to_map(s).insert(k, v).contains_key(q) && q != k {
                    let a = choose|a: int| 0 <= a < s.len() && s[a].0 == q;
                    assert(t[a].0 == q);
                }
                if q == k {
                    assert(t[i].0 == k);
                }
                if seq_to_map(t).contains_key(q) {
                    let a = choose|a: int| 0 <= a < t.len() && t[a].0 == q;
                    assert(t[a].0 == s[a].0);
                }
            }
            assert forall|q: Seq<char>| #[trigger] seq_to_map(t).contains_key(q) implies seq_to_map(t)[q] == seq_to_map(s).insert(k, v)[q] by {
                let a = choose|a: int| 0 <= a < t.len() && t[a].0 == q;
                assert(seq_to_map(t)[t[a].0] == t[a].1);
                if a != i {
                    assert(t[a] == s[a]);
                    assert(seq_to_map(s)[s[a].0] == s[a].1);
                }
            }
        }
    } else {
        let t = s.push((k, v));
        assert(distinct_keys(t)) by {
            assert forall|a: int, b: int| 0 <= a < b < t.len() implies t[a].0 != t[b].0 by {
                if b == s.len() {
                    assert(t[a] == s[a]);
                    if s[a].0 == k {
                        assert(seq_to_map(s).contains_key(k));
                    }
                } else {
                    assert(t[a] == s[a] && t[b] == s[b]);
                }
            }
        }
        assert(t.drop_last() =~= s);
    }
}

/// Removing an entry by `ev_remove` keeps keys distinct and removes from
/// the map.
pub proof fn lemma_ev_remove<W>(s: Seq<(Seq<char>, W)>, k: Seq<char>)
    requires
        distinct_keys(s),
    ensures
        distinct_keys(ev_remove(s, k)),
        seq_to_map(ev_remove(s, k)) == seq_to_map(s).remove(k),
{
    lemma_seq_to_map(s);
    if seq_to_map(s).contains_key(k) {
        let j = choose|j: int| 0 <= j < s.len() && s[j].0 == k;
        let i = index_of_key_spec(s, k);
        assert(0 <= i < s.len() && s[i].0 == k);
        let t = s.remove(i);
        assert(distinct_keys(t)) by {
            assert forall|a: int, b: int| 0 <= a < b < t.len() implies t[a].0 != t[b].0 by {
                let a2 = if a < i { a } else { a + 1 };
                let b2 = if b < i { b } else { b + 1 };
                assert(t[a] == s[a2] && t[b] == s[b2]);
            }
        }
        lemma_seq_to_map(t);
        assert(seq_to_map(t) =~= seq_to_map(s).remove(k)) by {
            assert forall|q: Seq<char>| #[trigger] seq_to_map(t).contains_key(q) <==> seq_to_map(s).remove(k).contains_key(q) by {
                if seq_to_map(t).contains_key(q) {
                    let a = choose|a: int| 0 <= a < t.len() && t[a].0 == q;
                    let a2 = if a < i { a } else { a + 1 };
                    assert(t[a] == s[a2]);
                }
                if seq_to_map(s).remove(k).contains_key(q) {
                    let a = choose|a: int| 0 <= a < s.len() && s[a].0 == q;
                    assert(a != i);
                    let a2 = if a < i { a } else { a - 1 };
                    assert(t[a2] == s[a]);
                }
            }
            assert forall|q: Seq<char>| #[trigger] seq_to_map(t).contains_key(q) implies seq_to_map(t)[q] == seq_to_map(s).remove(k)[q] by {
                let a = choose|a: int| 0 <= a < t.len() && t[a].0 == q;
                let a2 = if a < i { a } else { a + 1 };
                assert(t[a] == s[a2]);
                assert(seq_to_map(t)[t[a].0] == t[a].1);
                assert(seq_to_map(s)[s[a2].0] == s[a2].1);
            }
        }
    } else {
        assert(seq_to_map(s).remove(k) =~= seq_to_map(s));
    }
}

/// Inserting entries by `ev_extend` keeps keys distinct, and the later
/// entries win.
pub proof fn lemma_ev_extend<W>(s: Seq<(Seq<char>, W)>, o: Seq<(Seq<char>, W)>)
    requires
        distinct_keys(s),
    ensures
        distinct_keys(ev_extend(s, o)),
        seq_to_map(ev_extend(s, o)) == seq_to_map(s).union_prefer_right(seq_to_map(o)),
    decreases o.len(),
{
    if o.len() == 0 {
        assert(seq_to_map(s).union_prefer_right(seq_to_map(o)) =~= seq_to_map(s));
    } else {
        lemma_ev_extend(s, o.drop_last());
        lemma_ev_insert(ev_extend(s, o.drop_last()), o.last().0, o.last().1);
        assert(seq_to_map(s).union_prefer_right(seq_to_map(o.drop_last())).insert(o.last().0, o.last().1)
            =~= seq_to_map(s).union_prefer_right(seq_to_map(o)));
    }
}

/// The keys of the entries of a sequence, as a set.
pub open spec fn key_set<W>(s: Seq<(Seq<char>, W)>) -> Set<Seq<char>> {
    seq_to_map(s).dom()
}

/// A map from strings to values.
pub struct StrMap<V> {
    pub entries: Vec<(String, V)>,
}

impl<V: View> StrMap<V> {
    /// The entries by view, in walking order.
    pub open spec fn ev(&self) -> Seq<(Seq<char>, V::V)> {
        entries_view(self.entries@)
    }

    /// Keys are distinct.
    pub open spec fn wf(&self) -> bool {
        distinct_keys(self.ev())
    }

    /// The map.
    pub open spec fn m(&self) -> Map<Seq<char>, V::V> {
        seq_to_map(self.ev())
    }

    /// An empty map.
    pub fn new() -> (r: Self)
        ensures
            r.wf(),
            r.ev() == Seq::<(Seq<char>, V::V)>::empty(),
            r.m() == Map::<Seq<char>, V::V>::empty(),
    {
        let r = StrMap { entries: Vec::new() };
        assert(r.ev() =~= Seq::<(Seq<char>, V::V)>::empty());
        r
    }

    /// The number of entries.
    pub fn len(&self) -> (r: usize)
        requires
            self.wf(),
        ensures
            r == self.m().len(),
            r == self.ev().len(),
    {
        proof {
            lemma_seq_to_map(self.ev());
        }
        self.entries.len()
    }

    /// Whether the map is empty.
    pub fn is_empty(&self) -> (r: bool)
        requires
            self.wf(),
        ensures
            r == (self.m().len() == 0),
            r == (self.m() == Map::<Seq<char>, V::V>::empty()),
    {
        proof {
            lemma_seq_to_map(self.ev());
            if self.ev().len() > 0 {
                assert(self.m().contains_key(self.ev()[0].0));
            } else {
                assert(self.ev() =~= Seq::<(Seq<char>, V::V)>::empty());
            }
        }
        self.entries.len() == 0
    }

    /// The position of a key.
    pub fn find(&self, k: &str) -> (r: Option<usize>)
        requires
            self.wf(),
        ensures
            match r {
                Some(i) => i < self.ev().len() && self.ev()[i as int].0 == k@,
                None => !self.m().contains_key(k@),
            },
            r is Some <==> self.m().contains_key(k@),
    {
        proof {
            lemma_seq_to_map(self.ev());
        }
        let mut i: usize = 0;
        while i < self.entries.len()
            invariant
                i <= self.entries@.len(),
                self.wf(),
                forall|j: int| 0 <= j < i ==> self.ev()[j].0 != k@,
            decreases self.entries@.len() - i,
        {
            if str_eq(self.entries[i].0.as_str(), k) {
                proof {
                    assert(self.ev()[i as int].0 == self.entries@[i as int].0@);
                    lemma_seq_to_map(self.ev());
                    assert(self.m().contains_key(k@));
                }
                return Some(i);
            }
            i = i + 1;
        }
        None
    }

    /// Whether no key occurs twice.
    pub fn keys_distinct(&self) -> (r: bool)
        ensures
            r == self.wf(),
    {
        let n = self.entries.len();
        let mut i: usize = 0;
        while i < n
            invariant
                n == self.entries@.len(),
                i <= n,
                forall|a: int, b: int| 0 <= a < b < n && a < i ==> self.ev()[a].0 != self.ev()[b].0,
            decreases n - i,
        {
            let mut j: usize = i + 1;
            while j < n
                invariant
                    n == self.entries@.len(),
                    i < n,
                    i + 1 <= j <= n,
                    forall|a: int, b: int| 0 <= a < b < n && a < i ==> self.ev()[a].0 != self.ev()[b].0,
                    forall|b: int| i < b < j ==> self.ev()[i as int].0 != self.ev()[b].0,
                decreases n - j,
            {
                if str_eq(self.entries[i].0.as_str(), self.entries[j].0.as_str()) {
                    assert(self.ev()[i as int].0 == self.entries@[i as int].0@);
                    assert(self.ev()[j as int].0 == self.entries@[j as int].0@);
                    return false;
                }
                assert(self.ev()[i as int].0 == self.entries@[i as int].0@);
                assert(self.ev()[j as int].0 == self.entries@[j as int].0@);
                j = j + 1;
            }
            i = i + 1;
        }
        true
    }

    /// Whether a key is present.
    pub fn contains_key(&self, k: &str) -> (r: bool)
        requires
            self.wf(),
        ensures
            r == self.m().contains_key(k@),
    {
        self.find(k).is_some()
    }

    /// The value under a key.
    pub fn get(&self, k: &str) -> (r: Option<&V>)
        requires
            self.wf(),
        ensures
            match r {
                Some(v) => self.m().contains_key(k@) && v@ == self.m()[k@],
                None => !self.m().contains_key(k@),
            },
    {
        proof {
            lemma_seq_to_map(self.ev());
        }
        match self.find(k) {
            Some(i) => {
                assert(self.ev()[i as int].1 == self.entries@[i as int].1@);
                Some(&self.entries[i].1)
            },
            None => None,
        }
    }

    /// Puts a value under a key: in place when the key is present, at the
    /// end otherwise.
    pub fn insert(&mut self, k: String, v: V)
        requires
            old(self).wf(),
        ensures
            final(self).wf(),
            final(self).m() == old(self).m().insert(k@, v@),
            old(self).m().contains_key(k@) ==> final(self).ev() == old(self).ev().update(
                old(self).ev().index_of_key(k@),
                (k@, v@),
            ),
            !old(self).m().contains_key(k@) ==> final(self).ev() == old(self).ev().push((k@, v@)),
            final(self).ev() == ev_insert(old(self).ev(), k@, v@),
    {
        proof {
            lemma_seq_to_map(self.ev());
        }
        match self.find(k.as_str()) {
            Some(i) => {
                let ghost old_ev = self.ev();
                self.entries.set(i, (k, v));
                proof {
                    assert(self.ev() =~= old_ev.update(i as int, (k@, v@)));
                    lemma_index_of_key(old_ev, i as int);
                    assert(self.wf()) by {
                        assert forall|a: int, b: int| 0 <= a < b < self.ev().len() implies self.ev()[a].0 != self.ev()[b].0 by {
                            assert(old_ev[a].0 == self.ev()[a].0);
                            assert(old_ev[b].0 == self.ev()[b].0);
                        }
                    }
                    lemma_seq_to_map(self.ev());
                    assert(self.m() =~= old(self).m().insert(k@, v@)) by {
                        assert forall|key: Seq<char>| #[trigger] self.m().contains_key(key) <==> old(self).m().insert(k@, v@).contains_key(key) by {
                            if self.m().contains_key(key) {
                                let j = choose|j: int| 0 <= j < self.ev().len() && self.ev()[j].0 == key;
                                assert(old_ev[j].0 == key);
                            }
                            if old(self).m().contains_key(key) {
                                let j = choose|j: int| 0 <= j < old_ev.len() && old_ev[j].0 == key;
                                assert(self.ev()[j].0 == key);
                            }
                        }
                        assert forall|key: Seq<char>| #[trigger] self.m().contains_key(key) implies self.m()[key] == old(self).m().insert(k@, v@)[key] by {
                            let j = choose|j: int| 0 <= j < self.ev().len() && self.ev()[j].0 == key;
                            if j != i {
                                assert(old_ev[j] == self.ev()[j]);
                            }
                        }
                    }
                }
            },
            None => {
                let ghost old_ev = self.ev();
                self.entries.push((k, v));
                proof {
                    assert(self.ev() =~= old_ev.push((k@, v@)));
                    assert(self.ev().drop_last() =~= old_ev);
                    assert(self.wf()) by {
                        assert forall|a: int, b: int| 0 <= a < b < self.ev().len() implies self.ev()[a].0 != self.ev()[b].0 by {
                            if b == old_ev.len() {
                                assert(old_ev[a].0 == self.ev()[a].0);
                            } else {
                                assert(old_ev[a] == self.ev()[a]);
                                assert(old_ev[b] == self.ev()[b]);
                            }
                        }
                    }
                }
            },
        }
    }

    /// Removes a key, returning its value.
    pub fn remove(&mut self, k: &str) -> (r: Option<V>)
        requires
            old(self).wf(),
        ensures
            final(self).wf(),
            final(self).m() == old(self).m().remove(k@),
            match r {
                Some(v) => old(self).m().contains_key(k@) && v@ == old(self).m()[k@],
                None => !old(self).m().contains_key(k@) && final(self).ev() == old(self).ev(),
            },
            old(self).m().contains_key(k@) ==> final(self).ev() == old(self).ev().remove(
                old(self).ev().index_of_key(k@),
            ),
            final(self).ev() == ev_remove(old(self).ev(), k@),
    {
        proof {
            lemma_seq_to_map(self.ev());
        }
        match self.find(k) {
            Some(i) => {
                let ghost old_ev = self.ev();
                let e = self.entries.remove(i);
                proof {
                    assert(self.ev() =~= old_ev.remove(i as int));
                    lemma_index_of_key(old_ev, i as int);
                    assert(self.wf()) by {
                        assert forall|a: int, b: int| 0 <= a < b < self.ev().len() implies self.ev()[a].0 != self.ev()[b].0 by {
                            let a2 = if a < i { a } else { a + 1 };
                            let b2 = if b < i { b } else { b + 1 };
                            assert(self.ev()[a] == old_ev[a2]);
                            assert(self.ev()[b] == old_ev[b2]);
                        }
                    }
                    lemma_seq_to_map(self.ev());
                    assert(self.m() =~= old(self).m().remove(k@)) by {
                        assert forall|key: Seq<char>| #[trigger] self.m().contains_key(key) <==> old(self).m().remove(k@).contains_key(key) by {
                            if self.m().contains_key(key) {
                                let j = choose|j: int| 0 <= j < self.ev().len() && self.ev()[j].0 == key;
                                let j2 = if j < i { j } else { j + 1 };
                                assert(self.ev()[j] == old_ev[j2]);
                            }
                            if old(self).m().remove(k@).contains_key(key) {
                                let j = choose|j: int| 0 <= j < old_ev.len() && old_ev[j].0 == key;
                                assert(j != i);
                                let j2 = if j < i { j } else { j - 1 };
                                assert(self.ev()[j2] == old_ev[j]);
                            }
                        }
                        assert forall|key: Seq<char>| #[trigger] self.m().contains_key(key) implies self.m()[key] == old(self).m().remove(k@)[key] by {
                            let j = choose|j: int| 0 <= j < self.ev().len() && self.ev()[j].0 == key;
                            let j2 = if j < i { j } else { j + 1 };
                            assert(self.ev()[j] == old_ev[j2]);
                        }
                    }
                    assert(e.1@ == old_ev[i as int].1);
                }
                Some(e.1)
            },
            None => {
                assert(self.m() =~= old(self).m().remove(k@));
                None
            },
        }
    }

    /// Removes every entry.
    pub fn clear(&mut self)
        ensures
            final(self).wf(),
            final(self).ev() == Seq::<(Seq<char>, V::V)>::empty(),
            final(self).m() == Map::<Seq<char>, V::V>::empty(),
    {
        self.entries.clear();
        assert(self.ev() =~= Seq::<(Seq<char>, V::V)>::empty());
    }
}

/// The position of a key among entries with distinct keys.
pub open spec fn index_of_key_spec<W>(s: Seq<(Seq<char>, W)>, k: Seq<char>) -> int {
    choose|i: int| 0 <= i < s.len() && s[i].0 == k
}

pub trait IndexOfKey {
    spec fn index_of_key(self, k: Seq<char>) -> int;
}

impl<W> IndexOfKey for Seq<(Seq<char>, W)> {
    open spec fn index_of_key(self, k: Seq<char>) -> int {
        index_of_key_spec(self, k)
    }
}

pub proof fn lemma_index_of_key<W>(s: Seq<(Seq<char>, W)>, i: int)
    requires
        distinct_keys(s),
        0 <= i < s.len(),
    ensures
        s.index_of_key(s[i].0) == i,
{
    let j = index_of_key_spec(s, s[i].0);
    assert(0 <= j < s.len() && s[j].0 == s[i].0);
}

impl<V: View + Dup> StrMap<V> {
    /// A copy of the map.
    pub fn dup_map(&self) -> (r: Self)
        ensures
            r.ev() == self.ev(),
    {
        let mut out: Vec<(String, V)> = Vec::new();
        let mut i: usize = 0;
        while i < self.entries.len()
            invariant
                i <= self.entries@.len(),
                entries_view(out@) == self.ev().subrange(0, i as int),
            decreases self.entries@.len() - i,
        {
            let k = self.entries[i].0.clone();
            let v = self.entries[i].1.dup();
            let ghost out0 = out@;
            out.push((k, v));
            proof {
                assert(out@ =~= out0.push((k, v)));
                assert(entries_view(out@) =~= entries_view(out0).push((k@, v@)));
                assert(self.ev()[i as int] == (self.entries@[i as int].0@, self.entries@[i as int].1@));
                assert(entries_view(out@) =~= self.ev().subrange(0, i + 1));
            }
            i = i + 1;
        }
        proof {
            assert(self.ev().subrange(0, self.entries@.len() as int) =~= self.ev());
        }
        StrMap { entries: out }
    }

    /// Inserts every entry of another map, in its order (`HashMap::extend`).
    pub fn extend(&mut self, other: &Self)
        requires
            old(self).wf(),
            other.wf(),
        ensures
            final(self).wf(),
            final(self).m() == old(self).m().union_prefer_right(other.m()),
            final(self).ev() == ev_extend(old(self).ev(), other.ev()),
    {
        let mut i: usize = 0;
        proof {
            assert(other.ev().subrange(0, 0) =~= Seq::<(Seq<char>, V::V)>::empty());
            assert(old(self).m().union_prefer_right(seq_to_map(Seq::<(Seq<char>, V::V)>::empty())) =~= old(self).m());
        }
        while i < other.entries.len()
            invariant
                i <= other.entries@.len(),
                other.wf(),
                self.wf(),
                self.m() == old(self).m().union_prefer_right(seq_to_map(other.ev().subrange(0, i as int))),
                self.ev() == ev_extend(old(self).ev(), other.ev().subrange(0, i as int)),
            decreases other.entries@.len() - i,
        {
            let k = other.entries[i].0.clone();
            let v = other.entries[i].1.dup();
            self.insert(k, v);
            proof {
                let s1 = other.ev().subrange(0, i + 1);
                assert(s1.drop_last() =~= other.ev().subrange(0, i as int));
                assert(s1.last() == other.ev()[i as int]);
                assert(self.m() =~= old(self).m().union_prefer_right(seq_to_map(s1)));
                assert(self.ev() == ev_extend(old(self).ev(), s1));
            }
            i = i + 1;
        }
        proof {
            assert(other.ev().subrange(0, other.entries@.len() as int) =~= other.ev());
        }
    }
}

} // verus!
