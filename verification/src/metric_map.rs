//! A map from names to samples that keeps its names in ascending order, as
//! `BTreeMap<String, _>` does, so that every family of samples is rendered in
//! the same order as the names sort. `BTreeMap<String, _>` itself has no
//! usable specification here: vstd specifies its operations only for keys
//! that obey vstd's ordering model, and `String` is not shown to obey it.

use vstd::prelude::*;

verus! {

/// Lexicographic order on character sequences, the order of `String`'s `Ord`
/// (code point order, which is also the byte order of UTF-8).
pub open spec fn key_lt(a: Seq<char>, b: Seq<char>) -> bool
    decreases a.len(),
{
    if a.len() == 0 {
        b.len() > 0
    } else if b.len() == 0 {
        false
    } else if a[0] != b[0] {
        a[0] < b[0]
    } else {
        key_lt(a.drop_first(), b.drop_first())
    }
}

/// No key is below itself.
pub proof fn lemma_key_lt_irreflexive(a: Seq<char>)
    ensures
        !key_lt(a, a),
    decreases a.len(),
{
    if a.len() > 0 {
        lemma_key_lt_irreflexive(a.drop_first());
    }
}

/// Of two different keys, exactly one is below the other.
pub proof fn lemma_key_lt_total(a: Seq<char>, b: Seq<char>)
    ensures
        a != b ==> (key_lt(a, b) || key_lt(b, a)),
        !(key_lt(a, b) && key_lt(b, a)),
    decreases a.len(),
{
    if a.len() > 0 && b.len() > 0 {
        lemma_key_lt_total(a.drop_first(), b.drop_first());
        if a[0] == b[0] && a.drop_first() == b.drop_first() {
            assert(a =~= seq![a[0]] + a.drop_first());
            assert(b =~= seq![b[0]] + b.drop_first());
        }
    } else if a.len() == 0 && b.len() == 0 {
        assert(a =~= b);
    }
}

/// The order is transitive.
pub proof fn lemma_key_lt_transitive(a: Seq<char>, b: Seq<char>, c: Seq<char>)
    requires
        key_lt(a, b),
        key_lt(b, c),
    ensures
        key_lt(a, c),
    decreases a.len(),
{
    if a.len() > 0 && b.len() > 0 && c.len() > 0 {
        if a[0] == b[0] && b[0] == c[0] {
            lemma_key_lt_transitive(a.drop_first(), b.drop_first(), c.drop_first());
        }
    }
}

/// The order compares keys at their first difference: where `a` and `b`
/// agree before index `i` and `a[i]` is the smaller character, `a` sorts
/// first.
pub proof fn lemma_key_lt_first_difference(a: Seq<char>, b: Seq<char>, i: int)
    requires
        0 <= i < a.len(),
        i < b.len(),
        a.take(i) == b.take(i),
        a[i] < b[i],
    ensures
        key_lt(a, b),
        !key_lt(b, a),
    decreases i,
{
    if i > 0 {
        assert(a[0] == a.take(i)[0] && b[0] == b.take(i)[0]);
        assert(a.drop_first().take(i - 1) =~= a.take(i).drop_first());
        assert(b.drop_first().take(i - 1) =~= b.take(i).drop_first());
        lemma_key_lt_first_difference(a.drop_first(), b.drop_first(), i - 1);
    }
}

/// A proper prefix sorts before the longer key.
pub proof fn lemma_key_lt_prefix(a: Seq<char>, b: Seq<char>)
    requires
        a.len() < b.len(),
        b.take(a.len() as int) == a,
    ensures
        key_lt(a, b),
        !key_lt(b, a),
    decreases a.len(),
{
    if a.len() > 0 {
        assert(b[0] == b.take(a.len() as int)[0]);
        assert(b.drop_first().take(a.len() - 1) =~= a.drop_first());
        lemma_key_lt_prefix(a.drop_first(), b.drop_first());
    }
}

/// Whether the keys of `es` ascend strictly.
pub open spec fn keys_ascending<T>(es: Seq<(Seq<char>, T)>) -> bool {
    forall|i: int, j: int| 0 <= i < j < es.len() ==> key_lt(#[trigger] es[i].0, #[trigger] es[j].0)
}

/// Whether some entry of `es` has the key `k`.
pub open spec fn has_key<T>(es: Seq<(Seq<char>, T)>, k: Seq<char>) -> bool {
    exists|i: int| 0 <= i < es.len() && #[trigger] es[i].0 == k
}

/// An index of `es` whose entry has the key `k`, if there is one.
pub open spec fn key_index<T>(es: Seq<(Seq<char>, T)>, k: Seq<char>) -> int {
    choose|i: int| 0 <= i < es.len() && #[trigger] es[i].0 == k
}

/// The map that the entries `es` stand for.
pub open spec fn entries_map<T>(es: Seq<(Seq<char>, T)>) -> Map<Seq<char>, T> {
    Map::new(|k: Seq<char>| has_key(es, k), |k: Seq<char>| es[key_index(es, k)].1)
}

/// Whether `a` sorts before `b`.
pub fn key_less(a: &[char], b: &[char]) -> (r: bool)
    ensures
        r == key_lt(a@, b@),
{
    let mut i: usize = 0;
    assert(a@.skip(0) == a@ && b@.skip(0) == b@);
    while i < a.len() && i < b.len()
        invariant
            i <= a@.len(),
            i <= b@.len(),
            key_lt(a@, b@) == key_lt(a@.skip(i as int), b@.skip(i as int)),
        decreases a@.len() - i,
    {
        assert(a@.skip(i as int)[0] == a@[i as int]);
        assert(b@.skip(i as int)[0] == b@[i as int]);
        if a[i] != b[i] {
            return a[i] < b[i];
        }
        assert(a@.skip(i as int).drop_first() == a@.skip(i + 1));
        assert(b@.skip(i as int).drop_first() == b@.skip(i + 1));
        i = i + 1;
    }
    i == a.len() && i < b.len()
}

/// In entries whose keys ascend, a key occurs at one index only.
pub proof fn lemma_key_index_unique<T>(es: Seq<(Seq<char>, T)>, i: int, j: int)
    requires
        keys_ascending(es),
        0 <= i < es.len(),
        0 <= j < es.len(),
        es[i].0 == es[j].0,
    ensures
        i == j,
{
    if i < j {
        assert(key_lt(es[i].0, es[j].0));
        lemma_key_lt_irreflexive(es[i].0);
    } else if j < i {
        assert(key_lt(es[j].0, es[i].0));
        lemma_key_lt_irreflexive(es[i].0);
    }
}

/// In entries whose keys ascend, the map gives at a key the value of the
/// entry that has it.
pub proof fn lemma_entries_map_at<T>(es: Seq<(Seq<char>, T)>, i: int)
    requires
        keys_ascending(es),
        0 <= i < es.len(),
    ensures
        entries_map(es).contains_key(es[i].0),
        entries_map(es)[es[i].0] == es[i].1,
{
    let k = es[i].0;
    assert(has_key(es, k));
    let j = key_index(es, k);
    lemma_key_index_unique(es, i, j);
}

/// Putting a new key at the place where it sorts keeps the keys ascending and
/// adds the key with its value to the map.
pub proof fn lemma_insert_entry<T>(es: Seq<(Seq<char>, T)>, p: int, k: Seq<char>, v: T)
    requires
        keys_ascending(es),
        0 <= p <= es.len(),
        forall|i: int| 0 <= i < p ==> key_lt(#[trigger] es[i].0, k),
        p < es.len() ==> key_lt(k, es[p].0),
    ensures
        keys_ascending(es.insert(p, (k, v))),
        entries_map(es.insert(p, (k, v))) == entries_map(es).insert(k, v),
{
    let ns = es.insert(p, (k, v));
    assert forall|i: int, j: int| 0 <= i < j < ns.len() implies key_lt(#[trigger] ns[i].0, #[trigger] ns[j].0) by {
        if j < p {
            assert(ns[i] == es[i] && ns[j] == es[j]);
        } else if j == p {
            assert(ns[i] == es[i]);
        } else if i == p {
            assert(ns[j] == es[j - 1]);
            if j - 1 > p {
                lemma_key_lt_transitive(k, es[p].0, es[j - 1].0);
            }
        } else if i < p {
            assert(ns[i] == es[i] && ns[j] == es[j - 1]);
            if p < es.len() {
                lemma_key_lt_transitive(es[i].0, k, es[p].0);
                if j - 1 > p {
                    lemma_key_lt_transitive(es[i].0, es[p].0, es[j - 1].0);
                }
            }
        } else {
            assert(ns[i] == es[i - 1] && ns[j] == es[j - 1]);
        }
    }
    let old_m = entries_map(es);
    let new_m = entries_map(ns);
    assert forall|q: Seq<char>| #[trigger] new_m.contains_key(q) == old_m.insert(k, v).contains_key(q) by {
        if has_key(es, q) {
            let i = key_index(es, q);
            if i < p {
                assert(ns[i].0 == q);
            } else {
                assert(ns[i + 1].0 == q);
            }
        }
        if has_key(ns, q) {
            let i = key_index(ns, q);
            if i < p {
                assert(es[i].0 == q);
            } else if i > p {
                assert(es[i - 1].0 == q);
            }
        }
        assert(ns[p].0 == k);
    }
    assert forall|q: Seq<char>| #[trigger] new_m.contains_key(q) implies new_m[q] == old_m.insert(k, v)[q] by {
        if q == k {
            lemma_entries_map_at(ns, p);
        } else {
            let i = key_index(es, q);
            lemma_entries_map_at(es, i);
            if i < p {
                lemma_entries_map_at(ns, i);
            } else {
                lemma_entries_map_at(ns, i + 1);
            }
        }
    }
    assert(new_m =~= old_m.insert(k, v));
}

/// Giving the entry at `p` a new value keeps the keys ascending and maps its
/// key to that value.
pub proof fn lemma_update_entry<T>(es: Seq<(Seq<char>, T)>, p: int, v: T)
    requires
        keys_ascending(es),
        0 <= p < es.len(),
    ensures
        keys_ascending(es.update(p, (es[p].0, v))),
        entries_map(es.update(p, (es[p].0, v))) == entries_map(es).insert(es[p].0, v),
{
    let k = es[p].0;
    let ns = es.update(p, (k, v));
    assert forall|i: int, j: int| 0 <= i < j < ns.len() implies key_lt(#[trigger] ns[i].0, #[trigger] ns[j].0) by {
        assert(ns[i].0 == es[i].0 && ns[j].0 == es[j].0);
    }
    let old_m = entries_map(es);
    let new_m = entries_map(ns);
    assert forall|q: Seq<char>| #[trigger] new_m.contains_key(q) == old_m.insert(k, v).contains_key(q) by {
        if has_key(es, q) {
            let i = key_index(es, q);
            assert(ns[i].0 == q);
        }
        if has_key(ns, q) {
            let i = key_index(ns, q);
            assert(es[i].0 == q);
        }
    }
    assert forall|q: Seq<char>| #[trigger] new_m.contains_key(q) implies new_m[q] == old_m.insert(k, v)[q] by {
        assert(has_key(ns, q));
        let i = key_index(ns, q);
        lemma_entries_map_at(ns, i);
        if i != p {
            assert(ns[i] == es[i]);
            lemma_entries_map_at(es, i);
            if q == k {
                lemma_key_index_unique(es, i, p);
            }
        }
    }
    assert(new_m =~= old_m.insert(k, v));
}

/// The entries of `m` in ascending order of key.
pub open spec fn ascending_entries<T>(m: Map<Seq<char>, T>) -> Seq<(Seq<char>, T)> {
    choose|es: Seq<(Seq<char>, T)>| keys_ascending(es) && entries_map(es) == m
}

/// Dropping the first of ascending entries keeps them ascending and removes
/// its key from the map.
pub proof fn lemma_entries_map_drop_first<T>(es: Seq<(Seq<char>, T)>)
    requires
        keys_ascending(es),
        es.len() > 0,
    ensures
        keys_ascending(es.drop_first()),
        entries_map(es.drop_first()) == entries_map(es).remove(es[0].0),
{
    let t = es.drop_first();
    assert forall|i: int, j: int| 0 <= i < j < t.len() implies key_lt(#[trigger] t[i].0, #[trigger] t[j].0) by {
        assert(t[i] == es[i + 1] && t[j] == es[j + 1]);
    }
    let m = entries_map(es).remove(es[0].0);
    let mt = entries_map(t);
    assert forall|q: Seq<char>| #[trigger] mt.contains_key(q) == m.contains_key(q) by {
        if has_key(t, q) {
            let i = key_index(t, q);
            assert(es[i + 1].0 == q);
            if q == es[0].0 {
                lemma_key_index_unique(es, i + 1, 0);
            }
        }
        if has_key(es, q) && q != es[0].0 {
            let i = key_index(es, q);
            assert(i != 0);
            assert(t[i - 1].0 == q);
        }
    }
    assert forall|q: Seq<char>| #[trigger] mt.contains_key(q) implies mt[q] == m[q] by {
        let i = key_index(t, q);
        lemma_entries_map_at(t, i);
        assert(es[i + 1] == t[i]);
        lemma_entries_map_at(es, i + 1);
    }
    assert(mt =~= m);
}

/// Two sequences of entries with ascending keys that stand for the same map
/// are the same: the entries of a map are its keys and values in ascending
/// order of key, whatever built it.
pub proof fn lemma_ascending_entries_unique<T>(a: Seq<(Seq<char>, T)>, b: Seq<(Seq<char>, T)>)
    requires
        keys_ascending(a),
        keys_ascending(b),
        entries_map(a) == entries_map(b),
    ensures
        a == b,
    decreases a.len(),
{
    if a.len() == 0 {
        if b.len() > 0 {
            assert(has_key(b, b[0].0));
            assert(entries_map(b).contains_key(b[0].0));
        }
        assert(a =~= b);
    } else if b.len() == 0 {
        assert(has_key(a, a[0].0));
        assert(entries_map(a).contains_key(a[0].0));
    } else {
        let ka = a[0].0;
        let kb = b[0].0;
        assert(has_key(a, ka));
        assert(has_key(b, kb));
        assert(entries_map(b).contains_key(ka));
        assert(entries_map(a).contains_key(kb));
        let i = key_index(a, kb);
        let j = key_index(b, ka);
        if ka != kb {
            assert(i != 0 && j != 0);
            assert(key_lt(ka, kb));
            assert(key_lt(kb, ka));
            lemma_key_lt_total(ka, kb);
        }
        lemma_entries_map_at(a, 0);
        lemma_entries_map_at(b, 0);
        lemma_entries_map_drop_first(a);
        lemma_entries_map_drop_first(b);
        lemma_ascending_entries_unique(a.drop_first(), b.drop_first());
        assert(a =~= seq![a[0]] + a.drop_first());
        assert(b =~= seq![b[0]] + b.drop_first());
    }
}

/// Entries with ascending keys are the ascending entries of their map.
pub proof fn lemma_ascending_entries_of<T>(es: Seq<(Seq<char>, T)>)
    requires
        keys_ascending(es),
    ensures
        es == ascending_entries(entries_map(es)),
{
    let m = entries_map(es);
    assert(keys_ascending(es) && entries_map(es) == m);
    let c = ascending_entries(m);
    lemma_ascending_entries_unique(es, c);
}

/// After `k` is mapped to `v`, reading `k` gives `v` back, and every other
/// key reads as before.
pub proof fn lemma_read_after_insert<T>(m: Map<Seq<char>, T>, k: Seq<char>, v: T, q: Seq<char>)
    ensures
        m.insert(k, v).contains_key(k),
        m.insert(k, v)[k] == v,
        q != k ==> m.insert(k, v).contains_key(q) == m.contains_key(q),
        q != k && m.contains_key(q) ==> m.insert(k, v)[q] == m[q],
{
}

/// Each key's characters paired with the value at the same index.
pub closed spec fn paired<T>(keys: Seq<Vec<char>>, vals: Seq<T>) -> Seq<(Seq<char>, T)> {
    Seq::new(keys.len(), |i: int| (keys[i]@, vals[i]))
}

/// Names mapped to samples, kept in ascending order of name.
pub struct MetricMap<T> {
    keys: Vec<Vec<char>>,
    vals: Vec<T>,
}

impl<T> View for MetricMap<T> {
    type V = Seq<(Seq<char>, T)>;

    /// The entries, in the order in which they are kept.
    closed spec fn view(&self) -> Seq<(Seq<char>, T)> {
        paired(self.keys@, self.vals@)
    }
}

impl<T> MetricMap<T> {
    #[verifier::type_invariant]
    spec fn inv(self) -> bool {
        &&& self.keys@.len() == self.vals@.len()
        &&& keys_ascending(self@)
    }

    /// The map that this value stands for.
    pub open spec fn as_map(&self) -> Map<Seq<char>, T> {
        entries_map(self@)
    }


    /// An empty map.
    pub fn new() -> (m: Self)
        ensures
            m@ == Seq::<(Seq<char>, T)>::empty(),
            m.as_map() == Map::<Seq<char>, T>::empty(),
            keys_ascending(m@),
            m@ == ascending_entries(m.as_map()),
    {
        let m = MetricMap { keys: Vec::new(), vals: Vec::new() };
        assert(m@ =~= Seq::<(Seq<char>, T)>::empty());
        assert(m.as_map() =~= Map::<Seq<char>, T>::empty());
        proof {
            lemma_ascending_entries_of(m@);
        }
        m
    }

    /// Whether there are no entries.
    pub fn is_empty(&self) -> (b: bool)
        ensures
            b == (self@.len() == 0),
            b == (self.as_map() == Map::<Seq<char>, T>::empty()),
    {
        proof {
            use_type_invariant(self);
            if self@.len() > 0 {
                assert(self.as_map().contains_key(self@[0].0));
            } else {
                assert(self.as_map() =~= Map::<Seq<char>, T>::empty());
            }
        }
        self.keys.len() == 0
    }

    /// The number of entries.
    pub fn len(&self) -> (n: usize)
        ensures
            n == self@.len(),
    {
        proof {
            use_type_invariant(self);
        }
        self.keys.len()
    }

    /// The first index whose key does not sort before `k`.
    fn position(&self, k: &[char]) -> (p: usize)
        ensures
            p <= self@.len(),
            forall|i: int| 0 <= i < p ==> key_lt(#[trigger] self@[i].0, k@),
            p < self@.len() ==> !key_lt(self@[p as int].0, k@),
    {
        proof {
            use_type_invariant(self);
        }
        let n = self.keys.len();
        let mut p: usize = 0;
        while p < n
            invariant
                n == self@.len(),
                n == self.keys@.len(),
                p <= n,
                forall|i: int| 0 <= i < p ==> key_lt(#[trigger] self@[i].0, k@),
            decreases n - p,
        {
            assert(self@[p as int].0 == self.keys@[p as int]@);
            if !key_less(self.keys[p].as_slice(), k) {
                return p;
            }
            p = p + 1;
        }
        p
    }

    /// Where `k` is, if some entry has it.
    fn find(&self, k: &[char]) -> (r: Option<usize>)
        ensures
            match r {
                Some(p) => p < self@.len() && self@[p as int].0 == k@,
                None => !has_key(self@, k@),
            },
            self.as_map().contains_key(k@) == (r is Some),
    {
        proof {
            use_type_invariant(self);
        }
        let p = self.position(k);
        if p < self.keys.len() {
            assert(self@[p as int].0 == self.keys@[p as int]@);
            if !key_less(k, self.keys[p].as_slice()) {
                proof {
                    lemma_key_lt_total(k@, self@[p as int].0);
                }
                return Some(p);
            }
        }
        proof {
            assert forall|i: int| 0 <= i < self@.len() implies #[trigger] self@[i].0 != k@ by {
                if i < p {
                    lemma_key_lt_irreflexive(k@);
                } else {
                    lemma_key_lt_total(k@, self@[p as int].0);
                    lemma_key_lt_irreflexive(k@);
                    if i > p {
                        assert(key_lt(self@[p as int].0, self@[i].0));
                        lemma_key_lt_transitive(k@, self@[p as int].0, self@[i].0);
                    }
                }
            }
        }
        None
    }

    /// The key and the value of the entry at `i`, in key order.
    pub(crate) fn entry_at(&self, i: usize) -> (r: (&Vec<char>, &T))
        requires
            i < self@.len(),
        ensures
            r.0@ == self@[i as int].0,
            *r.1 == self@[i as int].1,
    {
        proof {
            use_type_invariant(self);
        }
        (&self.keys[i], &self.vals[i])
    }

    /// Maps `k` to `value`, in place of any value that `k` had.
    pub fn insert_chars(&mut self, k: Vec<char>, value: T)
        ensures
            final(self).as_map() == old(self).as_map().insert(k@, value),
            keys_ascending(final(self)@),
            final(self)@ == ascending_entries(final(self).as_map()),
    {
        let mut taken = MetricMap::new();
        std::mem::swap(self, &mut taken);
        proof {
            use_type_invariant(&taken);
        }
        let p = taken.position(k.as_slice());
        let ghost es = taken@;
        let MetricMap { mut keys, mut vals } = taken;
        if p < keys.len() && !key_less(k.as_slice(), keys[p].as_slice()) {
            proof {
                assert(es[p as int].0 == keys@[p as int]@);
                lemma_key_lt_total(k@, es[p as int].0);
                lemma_update_entry(es, p as int, value);
            }
            vals.set(p, value);
            assert(paired(keys@, vals@) =~= es.update(p as int, (k@, value)));
            proof {
                lemma_ascending_entries_of(paired(keys@, vals@));
            }
            let m = MetricMap { keys, vals };
            *self = m;
        } else {
            proof {
                if p < es.len() {
                    assert(es[p as int].0 == keys@[p as int]@);
                    lemma_key_lt_total(k@, es[p as int].0);
                }
                lemma_insert_entry(es, p as int, k@, value);
            }
            let ghost kv = k@;
            keys.insert(p, k);
            vals.insert(p, value);
            assert(paired(keys@, vals@) =~= es.insert(p as int, (kv, value)));
            proof {
                lemma_ascending_entries_of(paired(keys@, vals@));
            }
            let m = MetricMap { keys, vals };
            *self = m;
        }
    }

    /// Maps `key` to `value`, in place of any value that `key` had.
    pub fn insert(&mut self, key: String, value: T)
        ensures
            final(self).as_map() == old(self).as_map().insert(key@, value),
            keys_ascending(final(self)@),
            final(self)@ == ascending_entries(final(self).as_map()),
    {
        let k = crate::text::to_chars(key.as_str());
        self.insert_chars(k, value);
    }

    /// The sample under `key`, if there is one.
    pub fn get(&self, key: &str) -> (r: Option<&T>)
        ensures
            match r {
                Some(v) => self.as_map().contains_key(key@) && *v == self.as_map()[key@],
                None => !self.as_map().contains_key(key@),
            },
    {
        proof {
            use_type_invariant(self);
        }
        let k = crate::text::to_chars(key);
        match self.find(k.as_slice()) {
            Some(p) => {
                proof {
                    lemma_entries_map_at(self@, p as int);
                }
                Some(&self.vals[p])
            },
            None => None,
        }
    }
}

} // verus!
