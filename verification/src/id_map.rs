use vstd::prelude::*;

verus! {

/// The keys of `s` strictly increase from one entry to the next.
pub open spec fn keys_increasing<V>(s: Seq<(usize, V)>) -> bool {
    forall|i: int, j: int| 0 <= i < j < s.len() ==> s[i].0 < s[j].0
}

/// The number of leading entries of `s` whose key is below `k`: where the
/// entry for `k` stands in a list with increasing keys, or where it would go.
pub open spec fn slot<V>(s: Seq<(usize, V)>, k: usize) -> int
    decreases s.len(),
{
    if s.len() == 0 || s[0].0 >= k {
        0
    } else {
        1 + slot(s.drop_first(), k)
    }
}

/// Whether `s` holds an entry for `k`.
pub open spec fn has_key<V>(s: Seq<(usize, V)>, k: usize) -> bool {
    slot(s, k) < s.len() && s[slot(s, k)].0 == k
}

/// The value stored for `k` in `s`, if any.
pub open spec fn lookup<V>(s: Seq<(usize, V)>, k: usize) -> Option<V> {
    if has_key(s, k) {
        Some(s[slot(s, k)].1)
    } else {
        None
    }
}

/// `s` with the value for `k` set to `v`: replaced where `k` already has an
/// entry, inserted at its place otherwise.
pub open spec fn upsert<V>(s: Seq<(usize, V)>, k: usize, v: V) -> Seq<(usize, V)> {
    if has_key(s, k) {
        s.update(slot(s, k), (k, v))
    } else {
        s.insert(slot(s, k), (k, v))
    }
}

/// `s` without the entry for `k`.
pub open spec fn delete<V>(s: Seq<(usize, V)>, k: usize) -> Seq<(usize, V)> {
    if has_key(s, k) {
        s.remove(slot(s, k))
    } else {
        s
    }
}

/// `s` with `f` applied to every value.
pub open spec fn map_vals<V, W>(s: Seq<(usize, V)>, f: spec_fn(V) -> W) -> Seq<(usize, W)> {
    s.map_values(|e: (usize, V)| (e.0, f(e.1)))
}

pub proof fn lemma_slot<V>(s: Seq<(usize, V)>, k: usize)
    ensures
        0 <= slot(s, k) <= s.len(),
        forall|j: int| 0 <= j < slot(s, k) ==> #[trigger] s[j].0 < k,
        slot(s, k) < s.len() ==> s[slot(s, k)].0 >= k,
    decreases s.len(),
{
    if s.len() > 0 && s[0].0 < k {
        lemma_slot(s.drop_first(), k);
        assert forall|j: int| 0 <= j < slot(s, k) implies #[trigger] s[j].0 < k by {
            if j > 0 {
                assert(s[j] == s.drop_first()[j - 1]);
            }
        }
    }
}

/// In a list with increasing keys, the entry for `k` is the one at its slot.
pub proof fn lemma_slot_of_index<V>(s: Seq<(usize, V)>, k: usize, j: int)
    requires
        keys_increasing(s),
        0 <= j < s.len(),
        s[j].0 == k,
    ensures
        slot(s, k) == j,
        has_key(s, k),
        lookup(s, k) == Some(s[j].1),
{
    lemma_slot(s, k);
    if slot(s, k) < j {
        assert(s[slot(s, k)].0 < s[j].0);
    }
    if slot(s, k) > j {
        assert(s[j].0 < k);
    }
}

/// In a list with increasing keys, `k` has an entry exactly when some entry
/// carries it.
pub proof fn lemma_has_key<V>(s: Seq<(usize, V)>, k: usize)
    requires
        keys_increasing(s),
    ensures
        has_key(s, k) <==> exists|j: int| 0 <= j < s.len() && #[trigger] s[j].0 == k,
{
    lemma_slot(s, k);
    if exists|j: int| 0 <= j < s.len() && #[trigger] s[j].0 == k {
        let j = choose|j: int| 0 <= j < s.len() && #[trigger] s[j].0 == k;
        lemma_slot_of_index(s, k, j);
    }
}

pub proof fn lemma_upsert<V>(s: Seq<(usize, V)>, k: usize, v: V)
    requires
        keys_increasing(s),
    ensures
        keys_increasing(upsert(s, k, v)),
        lookup(upsert(s, k, v), k) == Some(v),
        forall|k2: usize| k2 != k ==> #[trigger] lookup(upsert(s, k, v), k2) == lookup(s, k2),
        upsert(s, k, v).len() == s.len() + (if has_key(s, k) { 0int } else { 1int }),
{
    lemma_slot(s, k);
    let p = slot(s, k);
    let t = upsert(s, k, v);
    if has_key(s, k) {
        assert forall|i: int, j: int| 0 <= i < j < t.len() implies t[i].0 < t[j].0 by {
            assert(t[i].0 == s[i].0);
            assert(t[j].0 == s[j].0);
        }
    } else {
        assert forall|i: int, j: int| 0 <= i < j < t.len() implies t[i].0 < t[j].0 by {
            if i < p && j < p {
                assert(t[i] == s[i] && t[j] == s[j]);
            } else if i < p && j == p {
                assert(t[i] == s[i]);
            } else if i < p {
                assert(t[i] == s[i] && t[j] == s[j - 1]);
            } else if i == p {
                assert(t[j] == s[j - 1]);
                assert(s[p].0 >= k);
                if j - 1 > p {
                    assert(s[p].0 < s[j - 1].0);
                }
            } else {
                assert(t[i] == s[i - 1] && t[j] == s[j - 1]);
            }
        }
    }
    lemma_slot_of_index(t, k, p);
    assert forall|k2: usize| k2 != k implies #[trigger] lookup(t, k2) == lookup(s, k2) by {
        lemma_has_key(s, k2);
        lemma_has_key(t, k2);
        lemma_slot(s, k2);
        lemma_slot(t, k2);
        if has_key(s, k2) {
            let j = slot(s, k2);
            let jt = if has_key(s, k) || j < p { j } else { j + 1 };
            assert(t[jt] == s[j]);
            lemma_slot_of_index(t, k2, jt);
        }
        if has_key(t, k2) {
            let j = slot(t, k2);
            let js = if has_key(s, k) || j < p { j } else { j - 1 };
            assert(t[j] == s[js]);
            lemma_slot_of_index(s, k2, js);
        }
    }
}

pub proof fn lemma_delete<V>(s: Seq<(usize, V)>, k: usize)
    requires
        keys_increasing(s),
    ensures
        keys_increasing(delete(s, k)),
        lookup(delete(s, k), k) is None,
        forall|k2: usize| k2 != k ==> #[trigger] lookup(delete(s, k), k2) == lookup(s, k2),
        delete(s, k).len() == s.len() - (if has_key(s, k) { 1int } else { 0int }),
{
    lemma_slot(s, k);
    let p = slot(s, k);
    let t = delete(s, k);
    if has_key(s, k) {
        assert forall|i: int, j: int| 0 <= i < j < t.len() implies t[i].0 < t[j].0 by {
            let si = if i < p { i } else { i + 1 };
            let sj = if j < p { j } else { j + 1 };
            assert(t[i] == s[si] && t[j] == s[sj]);
        }
        assert forall|k2: usize| #[trigger] lookup(t, k2) == (if k2 == k { None } else { lookup(s, k2) }) by {
            lemma_has_key(s, k2);
            lemma_has_key(t, k2);
            lemma_slot(s, k2);
            lemma_slot(t, k2);
            if has_key(s, k2) && k2 != k {
                let j = slot(s, k2);
                assert(j != p);
                let jt = if j < p { j } else { j - 1 };
                assert(t[jt] == s[j]);
                lemma_slot_of_index(t, k2, jt);
            }
            if has_key(t, k2) {
                let j = slot(t, k2);
                let js = if j < p { j } else { j + 1 };
                assert(t[j] == s[js]);
                lemma_slot_of_index(s, k2, js);
                assert(js != p);
            }
        }
        assert(lookup(t, k) is None);
    }
}

pub proof fn lemma_map_vals_slot<V, W>(s: Seq<(usize, V)>, f: spec_fn(V) -> W, k: usize)
    ensures
        slot(map_vals(s, f), k) == slot(s, k),
        has_key(map_vals(s, f), k) == has_key(s, k),
        lookup(map_vals(s, f), k) == (match lookup(s, k) {
            Some(v) => Some(f(v)),
            None => None,
        }),
    decreases s.len(),
{
    let m = map_vals(s, f);
    if s.len() > 0 && s[0].0 < k {
        assert(m.drop_first() =~= map_vals(s.drop_first(), f));
        lemma_map_vals_slot(s.drop_first(), f, k);
    }
    lemma_slot(s, k);
}

pub proof fn lemma_map_vals_upsert<V, W>(s: Seq<(usize, V)>, f: spec_fn(V) -> W, k: usize, v: V)
    ensures
        upsert(map_vals(s, f), k, f(v)) == map_vals(upsert(s, k, v), f),
        delete(map_vals(s, f), k) == map_vals(delete(s, k), f),
        keys_increasing(s) ==> keys_increasing(map_vals(s, f)),
{
    lemma_map_vals_slot(s, f, k);
    lemma_slot(s, k);
    assert(upsert(map_vals(s, f), k, f(v)) =~= map_vals(upsert(s, k, v), f));
    assert(delete(map_vals(s, f), k) =~= map_vals(delete(s, k), f));
}

pub proof fn lemma_upsert_delete<V>(s: Seq<(usize, V)>, k: usize, v: V)
    requires
        keys_increasing(s),
    ensures
        upsert(delete(s, k), k, v) == upsert(s, k, v),
{
    lemma_slot(s, k);
    if has_key(s, k) {
        let p = slot(s, k);
        let d = delete(s, k);
        lemma_slot(d, k);
        assert(slot(d, k) == p) by {
            if slot(d, k) < p {
                assert(d[slot(d, k)] == s[slot(d, k)]);
            }
            if slot(d, k) > p {
                assert(d[p] == s[p + 1]);
                assert(s[p].0 < s[p + 1].0);
            }
        }
        assert(!has_key(d, k)) by {
            if p < d.len() {
                assert(d[p] == s[p + 1]);
                assert(s[p].0 < s[p + 1].0);
            }
        }
        assert(upsert(d, k, v) =~= upsert(s, k, v));
    }
}

/// Looking up in a list with increasing keys: the last entry, or the
/// entries before it.
pub proof fn lemma_lookup_drop_last<V>(s: Seq<(usize, V)>, k: usize)
    requires
        keys_increasing(s),
        s.len() > 0,
    ensures
        keys_increasing(s.drop_last()),
        lookup(s, k) == (if k == s.last().0 {
            Some(s.last().1)
        } else {
            lookup(s.drop_last(), k)
        }),
        has_key(s, k) == (k == s.last().0 || has_key(s.drop_last(), k)),
{
    let d = s.drop_last();
    assert(keys_increasing(d)) by {
        assert forall|i: int, j: int| 0 <= i < j < d.len() implies d[i].0 < d[j].0 by {
            assert(d[i] == s[i] && d[j] == s[j]);
        }
    }
    lemma_has_key(s, k);
    lemma_has_key(d, k);
    if k == s.last().0 {
        lemma_slot_of_index(s, k, s.len() - 1);
        if has_key(d, k) {
            let j = slot(d, k);
            lemma_slot(d, k);
            assert(d[j] == s[j]);
            assert(s[j].0 < s[s.len() - 1].0);
        }
    } else {
        if has_key(d, k) {
            let j = slot(d, k);
            lemma_slot(d, k);
            assert(d[j] == s[j]);
            lemma_slot_of_index(s, k, j);
        }
        if has_key(s, k) {
            let j = slot(s, k);
            lemma_slot(s, k);
            assert(j < s.len() - 1);
            assert(d[j] == s[j]);
            lemma_slot_of_index(d, k, j);
        }
    }
}

/// Every key of `a` is a key of `b`: then `a` has no more entries than `b`.
pub proof fn lemma_keys_subset_len<V, W>(a: Seq<(usize, V)>, b: Seq<(usize, W)>)
    requires
        keys_increasing(a),
        forall|i: int| 0 <= i < a.len() ==> has_key(b, #[trigger] a[i].0),
    ensures
        a.len() <= b.len(),
{
    let ka = a.map_values(|e: (usize, V)| e.0);
    let kb = b.map_values(|e: (usize, W)| e.0);
    assert(ka.no_duplicates()) by {
        assert forall|i: int, j: int| 0 <= i < ka.len() && 0 <= j < ka.len() && i != j implies ka[i]
            != ka[j] by {
            if i < j {
                assert(a[i].0 < a[j].0);
            } else {
                assert(a[j].0 < a[i].0);
            }
        }
    }
    ka.unique_seq_to_set();
    kb.lemma_cardinality_of_set();
    assert(ka.to_set().subset_of(kb.to_set())) by {
        assert forall|x: usize| ka.to_set().contains(x) implies kb.to_set().contains(x) by {
            assert(ka.contains(x));
            let i = choose|i: int| 0 <= i < ka.len() && ka[i] == x;
            assert(has_key(b, a[i].0));
            lemma_slot(b, x);
            let j = slot(b, x);
            assert(kb[j] == x);
            assert(kb.contains(x));
        }
    }
    vstd::seq_lib::seq_to_set_is_finite(kb);
    vstd::set_lib::lemma_len_subset(ka.to_set(), kb.to_set());
}

/// The list stored for `k` in `s`, or the empty list.
pub open spec fn entries_or_empty<T>(s: Seq<(usize, Seq<T>)>, k: usize) -> Seq<T> {
    match lookup(s, k) {
        Some(l) => l,
        None => Seq::empty(),
    }
}

/// `s` with `x` added at the end of the list stored for `k`.
pub open spec fn push_entry<T>(s: Seq<(usize, Seq<T>)>, k: usize, x: T) -> Seq<(usize, Seq<T>)> {
    upsert(s, k, entries_or_empty(s, k).push(x))
}

pub proof fn lemma_push_entry<T>(s: Seq<(usize, Seq<T>)>, k: usize, x: T)
    requires
        keys_increasing(s),
    ensures
        keys_increasing(push_entry(s, k, x)),
        lookup(push_entry(s, k, x), k) == Some(entries_or_empty(s, k).push(x)),
        forall|k2: usize| k2 != k ==> #[trigger] lookup(push_entry(s, k, x), k2) == lookup(s, k2),
{
    lemma_upsert(s, k, entries_or_empty(s, k).push(x));
}

/// The function viewing a vector as its sequence.
pub open spec fn seq_of<T>() -> spec_fn(Vec<T>) -> Seq<T> {
    |l: Vec<T>| l@
}

/// `s` with each vector viewed as its sequence.
pub open spec fn vview<T>(s: Seq<(usize, Vec<T>)>) -> Seq<(usize, Seq<T>)> {
    map_vals(s, seq_of::<T>())
}

/// Adds `x` at the end of the list stored for `k`.
pub fn push_to<T>(m: &mut IdMap<Vec<T>>, k: usize, x: T)
    ensures
        vview(final(m).entry_seq()) == push_entry(vview(old(m).entry_seq()), k, x),
{
    proof {
        use_type_invariant(&*m);
    }
    let ghost s0 = m.entry_seq();
    let mut l = match m.remove(k) {
        Some(l) => l,
        None => Vec::new(),
    };
    let ghost e = l@;
    l.push(x);
    m.insert(k, l);
    proof {
        let f = seq_of::<T>();
        lemma_upsert_delete(s0, k, l);
        lemma_map_vals_slot(s0, f, k);
        lemma_map_vals_upsert(s0, f, k, l);
        assert(e == entries_or_empty(vview(s0), k));
    }
}

/// A map keyed by small integer identifiers, kept as a list of entries in
/// increasing key order.
pub struct IdMap<V> {
    entries: Vec<(usize, V)>,
}

impl<V> IdMap<V> {
    #[verifier::type_invariant]
    pub open spec fn well_formed(self) -> bool {
        keys_increasing(self.entry_seq())
    }

    /// The entries, in increasing key order.
    pub closed spec fn entry_seq(self) -> Seq<(usize, V)> {
        self.entries@
    }

    /// An empty map.
    pub fn new() -> (res: Self)
        ensures
            res.entry_seq() == Seq::<(usize, V)>::empty(),
    {
        IdMap { entries: Vec::new() }
    }

    /// The number of entries.
    pub fn len(&self) -> (res: usize)
        ensures
            res == self.entry_seq().len(),
    {
        self.entries.len()
    }

    /// The entries, in increasing key order.
    pub fn entries(&self) -> (res: &[(usize, V)])
        ensures
            res@ == self.entry_seq(),
            keys_increasing(res@),
    {
        proof {
            use_type_invariant(self);
        }
        self.entries.as_slice()
    }

    /// Where the entry for `k` stands, or would go.
    fn find_slot(&self, k: usize) -> (res: usize)
        ensures
            res == slot(self.entry_seq(), k),
    {
        proof {
            lemma_slot(self.entries@, k);
        }
        let mut i: usize = 0;
        while i < self.entries.len() && self.entries[i].0 < k
            invariant
                0 <= i <= self.entries.len(),
                forall|j: int| 0 <= j < i ==> #[trigger] self.entries@[j].0 < k,
                0 <= slot(self.entries@, k) <= self.entries@.len(),
                forall|j: int| 0 <= j < slot(self.entries@, k) ==> #[trigger] self.entries@[j].0 < k,
                slot(self.entries@, k) < self.entries@.len() ==> self.entries@[slot(
                    self.entries@,
                    k,
                )].0 >= k,
            decreases self.entries.len() - i,
        {
            i += 1;
        }
        let ghost p = slot(self.entries@, k);
        assert(i == p) by {
            if i < p {
                assert(self.entries@[i as int].0 < k);
            }
            if p < i {
                assert(self.entries@[p].0 < k);
            }
        }
        i
    }

    /// Whether `k` has an entry.
    pub fn contains_key(&self, k: usize) -> (res: bool)
        ensures
            res == has_key(self.entry_seq(), k),
    {
        let p = self.find_slot(k);
        p < self.entries.len() && self.entries[p].0 == k
    }

    /// The value stored for `k`, if any.
    pub fn get(&self, k: usize) -> (res: Option<&V>)
        ensures
            res is Some == has_key(self.entry_seq(), k),
            res matches Some(r) ==> lookup(self.entry_seq(), k) == Some(*r),
    {
        let p = self.find_slot(k);
        if p < self.entries.len() && self.entries[p].0 == k {
            Some(&self.entries[p].1)
        } else {
            None
        }
    }

    /// Sets the value for `k` to `v`.
    pub fn insert(&mut self, k: usize, v: V)
        ensures
            final(self).entry_seq() == upsert(old(self).entry_seq(), k, v),
    {
        proof {
            use_type_invariant(&*self);
            lemma_upsert(self.entries@, k, v);
        }
        let p = self.find_slot(k);
        let mut entries = Vec::new();
        std::mem::swap(&mut entries, &mut self.entries);
        proof {
            lemma_slot(entries@, k);
        }
        if p < entries.len() && entries[p].0 == k {
            entries.set(p, (k, v));
        } else {
            entries.insert(p, (k, v));
        }
        self.entries = entries;
    }

    /// Takes out the value for `k`, if any.
    pub fn remove(&mut self, k: usize) -> (res: Option<V>)
        ensures
            final(self).entry_seq() == delete(old(self).entry_seq(), k),
            res == lookup(old(self).entry_seq(), k),
    {
        proof {
            use_type_invariant(&*self);
            lemma_delete(self.entries@, k);
        }
        let p = self.find_slot(k);
        if p < self.entries.len() && self.entries[p].0 == k {
            let mut entries = Vec::new();
            std::mem::swap(&mut entries, &mut self.entries);
            let (_, v) = entries.remove(p);
            self.entries = entries;
            Some(v)
        } else {
            None
        }
    }
}

} // verus!
