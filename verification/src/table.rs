//! A map from text to values: entries with distinct keys.
use crate::text::same;
use vstd::prelude::*;

verus! {

/// A map from text to values.
pub struct Table<V> {
    entries: Vec<(String, V)>,
}

spec fn holds<V>(s: Seq<(String, V)>, k: Seq<char>, i: int) -> bool {
    0 <= i < s.len() && s[i].0@ == k
}

spec fn as_map<V>(s: Seq<(String, V)>) -> Map<Seq<char>, V> {
    Map::new(
        |k: Seq<char>| exists|i: int| holds(s, k, i),
        |k: Seq<char>| s[choose|i: int| holds(s, k, i)].1,
    )
}

spec fn distinct<V>(s: Seq<(String, V)>) -> bool {
    forall|i: int, j: int| 0 <= i < j < s.len() ==> (#[trigger] s[i]).0@ != (#[trigger] s[j]).0@
}

proof fn entry_found<V>(s: Seq<(String, V)>, i: int)
    requires
        distinct(s),
        0 <= i < s.len(),
    ensures
        as_map(s).contains_key(s[i].0@),
        as_map(s)[s[i].0@] == s[i].1,
{
    let k = s[i].0@;
    assert(holds(s, k, i));
    let j = choose|j: int| holds(s, k, j);
    assert(holds(s, k, j));
    assert(i == j);
}

proof fn map_len<V>(s: Seq<(String, V)>)
    requires
        distinct(s),
    ensures
        as_map(s).dom().finite(),
        as_map(s).dom().len() == s.len(),
    decreases s.len(),
{
    if s.len() == 0 {
        assert(as_map(s).dom() =~= Set::empty());
    } else {
        let t = s.drop_last();
        assert(distinct(t)) by {
            assert forall|i: int, j: int| 0 <= i < j < t.len() implies (#[trigger] t[i]).0@ != (
            #[trigger] t[j]).0@ by {
                assert(s[i] == t[i] && s[j] == t[j]);
            }
        }
        map_len(t);
        let k = s.last().0@;
        assert(!as_map(t).contains_key(k)) by {
            if as_map(t).contains_key(k) {
                let i = choose|i: int| holds(t, k, i);
                assert(s[i].0@ == s[s.len() - 1].0@);
            }
        }
        assert(as_map(s).dom() =~= as_map(t).dom().insert(k)) by {
            assert forall|q: Seq<char>| as_map(s).dom().contains(q) <==> as_map(t).dom().insert(
                k,
            ).contains(q) by {
                if as_map(s).dom().contains(q) {
                    let i = choose|i: int| holds(s, q, i);
                    if i < t.len() {
                        assert(holds(t, q, i));
                    }
                }
                if as_map(t).dom().contains(q) {
                    let i = choose|i: int| holds(t, q, i);
                    assert(holds(s, q, i));
                }
                if q == k {
                    assert(holds(s, q, s.len() - 1));
                }
            }
        }
    }
}

impl<V> View for Table<V> {
    type V = Map<Seq<char>, V>;

    closed spec fn view(&self) -> Map<Seq<char>, V> {
        as_map(self.entries@)
    }
}

impl<V> Table<V> {
    #[verifier::type_invariant]
    spec fn inv(self) -> bool {
        distinct(self.entries@)
    }

    /// An empty map.
    pub fn new() -> (r: Self)
        ensures
            r@ == Map::<Seq<char>, V>::empty(),
    {
        let r = Table { entries: Vec::new() };
        assert(r@ =~= Map::<Seq<char>, V>::empty());
        r
    }

    fn find(&self, key: &str) -> (r: Option<usize>)
        ensures
            match r {
                Some(i) => holds(self.entries@, key@, i as int) && self@.contains_key(key@)
                    && self@[key@] == self.entries@[i as int].1,
                None => !self@.contains_key(key@),
            },
    {
        proof {
            use_type_invariant(self);
        }
        let mut i: usize = 0;
        while i < self.entries.len()
            invariant
                i <= self.entries@.len(),
                distinct(self.entries@),
                forall|j: int| 0 <= j < i ==> !holds(self.entries@, key@, j),
            decreases self.entries@.len() - i,
        {
            if same(self.entries[i].0.as_str(), key) {
                proof {
                    entry_found(self.entries@, i as int);
                }
                return Some(i);
            }
            i = i + 1;
        }
        None
    }

    /// The value of a key.
    pub fn get(&self, key: &str) -> (r: Option<&V>)
        ensures
            match r {
                Some(v) => self@.contains_key(key@) && *v == self@[key@],
                None => !self@.contains_key(key@),
            },
    {
        match self.find(key) {
            Some(i) => Some(&self.entries[i].1),
            None => None,
        }
    }

    /// Whether a key is present.
    pub fn contains(&self, key: &str) -> (r: bool)
        ensures
            r == self@.contains_key(key@),
    {
        self.find(key).is_some()
    }

    /// The number of keys.
    pub fn len(&self) -> (r: usize)
        ensures
            self@.dom().finite(),
            r == self@.dom().len(),
    {
        proof {
            use_type_invariant(self);
            map_len(self.entries@);
        }
        self.entries.len()
    }

    /// The key and value at a position below the length. Positions are arbitrary.
    pub fn at(&self, i: usize) -> (r: (&String, &V))
        requires
            i < self@.dom().len(),
        ensures
            self@.contains_key(r.0@),
            self@[r.0@] == *r.1,
    {
        proof {
            use_type_invariant(self);
            map_len(self.entries@);
            entry_found(self.entries@, i as int);
        }
        let e = &self.entries[i];
        (&e.0, &e.1)
    }

    /// The keys, each once, in no particular order.
    pub fn keys(&self) -> (r: Vec<String>)
        ensures
            forall|i: int, j: int|
                0 <= i < j < r@.len() ==> (#[trigger] r@[i])@ != (#[trigger] r@[j])@,
            forall|i: int| 0 <= i < r@.len() ==> self@.contains_key(#[trigger] r@[i]@),
            forall|k: Seq<char>| #[trigger]
                self@.contains_key(k) ==> exists|i: int| 0 <= i < r@.len() && #[trigger] r@[i]@ == k,
            self@.dom().finite(),
            r@.len() == self@.dom().len(),
    {
        proof {
            use_type_invariant(self);
            map_len(self.entries@);
        }
        let mut r: Vec<String> = Vec::new();
        let mut i: usize = 0;
        while i < self.entries.len()
            invariant
                i <= self.entries@.len(),
                r@.len() == i,
                distinct(self.entries@),
                forall|k: int| 0 <= k < i ==> #[trigger] r@[k]@ == self.entries@[k].0@,
            decreases self.entries@.len() - i,
        {
            r.push(self.entries[i].0.clone());
            i = i + 1;
        }
        proof {
            assert forall|k: int| 0 <= k < r@.len() implies self@.contains_key(
                #[trigger] r@[k]@,
            ) by {
                entry_found(self.entries@, k);
            }
            assert forall|k: Seq<char>| #[trigger] self@.contains_key(k) implies exists|i: int|
                0 <= i < r@.len() && #[trigger] r@[i]@ == k by {
                let i = choose|i: int| holds(self.entries@, k, i);
                assert(r@[i]@ == k);
            }
        }
        r
    }

    /// Takes a key out and hands back its value.
    pub fn remove(&mut self, key: &str) -> (r: Option<V>)
        ensures
            final(self)@ == old(self)@.remove(key@),
            match r {
                Some(v) => old(self)@.contains_key(key@) && v == old(self)@[key@],
                None => !old(self)@.contains_key(key@),
            },
    {
        proof {
            use_type_invariant(&*self);
        }
        match self.find(key) {
            Some(i) => {
                let mut entries: Vec<(String, V)> = Vec::new();
                std::mem::swap(&mut entries, &mut self.entries);
                let ghost before = entries@;
                let e = entries.remove(i);
                proof {
                    removed(before, i as int);
                }
                self.entries = entries;
                Some(e.1)
            },
            None => {
                assert(self@ =~= old(self)@.remove(key@));
                None
            },
        }
    }

    /// Gives a key a value, in place of the one it may have had.
    pub fn insert(&mut self, key: String, value: V) -> (r: Option<V>)
        ensures
            final(self)@ == old(self)@.insert(key@, value),
            match r {
                Some(v) => old(self)@.contains_key(key@) && v == old(self)@[key@],
                None => !old(self)@.contains_key(key@),
            },
    {
        let ghost start = self@;
        let previous = self.remove(key.as_str());
        proof {
            use_type_invariant(&*self);
        }
        let ghost before = self.entries@;
        let ghost k = key@;
        let mut entries: Vec<(String, V)> = Vec::new();
        std::mem::swap(&mut entries, &mut self.entries);
        entries.push((key, value));
        proof {
            assert(entries@.drop_last() =~= before);
            added(before, entries@);
            assert(start.remove(k).insert(k, value) =~= start.insert(k, value));
        }
        self.entries = entries;
        previous
    }

    /// Takes some entry out.
    pub fn pop(&mut self) -> (r: Option<(String, V)>)
        ensures
            match r {
                Some((k, v)) => old(self)@.contains_key(k@) && v == old(self)@[k@] && final(self)@
                    == old(self)@.remove(k@) && old(self)@.dom().finite(),
                None => old(self)@ == Map::<Seq<char>, V>::empty() && final(self)@ == old(self)@,
            },
    {
        proof {
            use_type_invariant(&*self);
            map_len(self.entries@);
        }
        let mut entries: Vec<(String, V)> = Vec::new();
        std::mem::swap(&mut entries, &mut self.entries);
        let ghost before = entries@;
        match entries.pop() {
            Some(e) => {
                proof {
                    let i = before.len() - 1;
                    removed(before, i);
                    entry_found(before, i);
                    assert(before.remove(i) =~= entries@);
                }
                self.entries = entries;
                Some(e)
            },
            None => {
                assert(as_map(before) =~= Map::<Seq<char>, V>::empty());
                assert(self@ =~= Map::<Seq<char>, V>::empty());
                None
            },
        }
    }

    /// Keeps the entries that a test accepts.
    pub fn retain<F: Fn(&String, &V) -> bool>(&mut self, keep: F)
        requires
            forall|k: &String, v: &V| #[trigger] keep.requires((k, v)),
        ensures
            forall|k: Seq<char>| #[trigger]
                final(self)@.contains_key(k) ==> old(self)@.contains_key(k) && final(self)@[k]
                    == old(self)@[k] && exists|key: String|
                    key@ == k && #[trigger] keep.ensures((&key, &old(self)@[k]), true),
            forall|k: Seq<char>| #[trigger]
                old(self)@.contains_key(k) && !final(self)@.contains_key(k) ==> exists|key: String|
                    key@ == k && #[trigger] keep.ensures((&key, &old(self)@[k]), false),
    {
        proof {
            use_type_invariant(&*self);
            map_len(self.entries@);
        }
        let ghost start = self@;
        let mut kept: Table<V> = Table::new();
        loop
            invariant
                forall|k: &String, v: &V| #[trigger] keep.requires((k, v)),
                forall|k: Seq<char>| #[trigger]
                    self@.contains_key(k) ==> start.contains_key(k) && self@[k] == start[k]
                        && !kept@.contains_key(k),
                forall|k: Seq<char>| #[trigger]
                    kept@.contains_key(k) ==> start.contains_key(k) && kept@[k] == start[k]
                        && exists|key: String|
                        key@ == k && #[trigger] keep.ensures((&key, &start[k]), true),
                forall|k: Seq<char>| #[trigger]
                    start.contains_key(k) && !kept@.contains_key(k) && !self@.contains_key(k)
                        ==> exists|key: String|
                        key@ == k && #[trigger] keep.ensures((&key, &start[k]), false),
                self@.dom().finite(),
            ensures
                self@ == Map::<Seq<char>, V>::empty(),
            decreases self@.dom().len(),
        {
            match self.pop() {
                Some((k, v)) => {
                    let ok = keep(&k, &v);
                    if ok {
                        kept.insert(k, v);
                    }
                },
                None => {
                    break;
                },
            }
        }
        *self = kept;
    }
}

proof fn removed<V>(s: Seq<(String, V)>, i: int)
    requires
        distinct(s),
        0 <= i < s.len(),
    ensures
        distinct(s.remove(i)),
        as_map(s.remove(i)) == as_map(s).remove(s[i].0@),
{
    let t = s.remove(i);
    let k = s[i].0@;
    assert forall|a: int, b: int| 0 <= a < b < t.len() implies (#[trigger] t[a]).0@ != (
    #[trigger] t[b]).0@ by {
        let a2 = if a < i { a } else { a + 1 };
        let b2 = if b < i { b } else { b + 1 };
        assert(t[a] == s[a2] && t[b] == s[b2]);
    }
    assert forall|q: Seq<char>| as_map(t).contains_key(q) == as_map(s).remove(k).contains_key(
        q,
    ) by {
        if as_map(t).contains_key(q) {
            let a = choose|a: int| holds(t, q, a);
            let a2 = if a < i { a } else { a + 1 };
            assert(t[a] == s[a2]);
            assert(holds(s, q, a2));
            assert(q != k);
        }
        if as_map(s).contains_key(q) && q != k {
            let a = choose|a: int| holds(s, q, a);
            let a2 = if a < i { a } else { a - 1 };
            assert(t[a2] == s[a]);
            assert(holds(t, q, a2));
        }
    }
    assert forall|q: Seq<char>| as_map(t).contains_key(q) implies as_map(t)[q] == as_map(s).remove(
        k,
    )[q] by {
        let a = choose|a: int| holds(t, q, a);
        let a2 = if a < i { a } else { a + 1 };
        assert(t[a] == s[a2]);
        entry_found(t, a);
        entry_found(s, a2);
    }
    assert(as_map(t) =~= as_map(s).remove(k));
}

proof fn added<V>(s: Seq<(String, V)>, t: Seq<(String, V)>)
    requires
        distinct(s),
        t.len() == s.len() + 1,
        t.drop_last() == s,
        !as_map(s).contains_key(t.last().0@),
    ensures
        distinct(t),
        as_map(t) == as_map(s).insert(t.last().0@, t.last().1),
{
    let k = t.last().0@;
    let n = s.len() as int;
    assert forall|a: int| 0 <= a < n implies t[a] == s[a] by {
        assert(t.drop_last()[a] == t[a]);
    }
    assert forall|a: int, b: int| 0 <= a < b < t.len() implies (#[trigger] t[a]).0@ != (
    #[trigger] t[b]).0@ by {
        if b == n {
            if t[a].0@ == k {
                assert(holds(s, k, a));
            }
        }
    }
    assert forall|q: Seq<char>| as_map(t).contains_key(q) == as_map(s).insert(
        k,
        t.last().1,
    ).contains_key(q) by {
        if as_map(t).contains_key(q) {
            let a = choose|a: int| holds(t, q, a);
            if a < n {
                assert(holds(s, q, a));
            }
        }
        if as_map(s).contains_key(q) {
            let a = choose|a: int| holds(s, q, a);
            assert(holds(t, q, a));
        }
        if q == k {
            assert(holds(t, q, n));
        }
    }
    assert forall|q: Seq<char>| as_map(t).contains_key(q) implies as_map(t)[q] == as_map(s).insert(
        k,
        t.last().1,
    )[q] by {
        let a = choose|a: int| holds(t, q, a);
        entry_found(t, a);
        if a < n {
            entry_found(s, a);
        }
    }
    assert(as_map(t) =~= as_map(s).insert(k, t.last().1));
}

} // verus!
