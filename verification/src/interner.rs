use vstd::prelude::*;

verus! {

/// The identifiers given to `names` after `name` is met: the identifier it
/// already has, or the next one.
pub open spec fn interned(names: Seq<Seq<char>>, name: Seq<char>) -> (Seq<Seq<char>>, int) {
    if names.contains(name) {
        (names, choose|i: int| 0 <= i < names.len() && names[i] == name)
    } else {
        (names.push(name), names.len() as int)
    }
}

/// Gives each distinct name an identifier: 0 for the first name met, 1 for
/// the next new one, and so on.
pub struct Interner {
    names: Vec<String>,
}

impl Interner {
    #[verifier::type_invariant]
    pub open spec fn well_formed(self) -> bool {
        self.name_seq().no_duplicates()
    }

    /// The names met so far, each at the index of its identifier.
    pub closed spec fn name_seq(self) -> Seq<Seq<char>> {
        self.names@.map_values(|s: String| s@)
    }

    /// An interner that has met no name.
    pub fn new() -> (res: Interner)
        ensures
            res.name_seq() == Seq::<Seq<char>>::empty(),
    {
        let res = Interner { names: Vec::new() };
        assert(res.name_seq() =~= Seq::<Seq<char>>::empty());
        res
    }

    /// The number of names met so far.
    pub fn len(&self) -> (res: usize)
        ensures
            res == self.name_seq().len(),
    {
        self.names.len()
    }

    /// The identifier of `name`: the one it was given when first met, or the
    /// next one if it is new.
    pub fn intern(&mut self, name: String) -> (id: usize)
        ensures
            final(self).name_seq() == interned(old(self).name_seq(), name@).0,
            id == interned(old(self).name_seq(), name@).1,
    {
        proof {
            use_type_invariant(&*self);
        }
        let ghost ns = self.name_seq();
        let mut i: usize = 0;
        while i < self.names.len()
            invariant
                0 <= i <= self.names.len(),
                ns == self.name_seq(),
                ns.no_duplicates(),
                forall|j: int| 0 <= j < i ==> ns[j] != name@,
            decreases self.names.len() - i,
        {
            if self.names[i] == name {
                proof {
                    assert(ns[i as int] == name@);
                    assert(ns.contains(name@));
                    let c = choose|c: int| 0 <= c < ns.len() && ns[c] == name@;
                    assert(c == i);
                }
                return i;
            }
            i += 1;
        }
        let mut names = Vec::new();
        std::mem::swap(&mut names, &mut self.names);
        let ghost before = names@;
        names.push(name);
        proof {
            assert(!ns.contains(name@));
            assert(names@.map_values(|s: String| s@) =~= ns.push(name@));
            assert forall|a: int, b: int| 0 <= a < b < ns.push(name@).len() implies ns.push(name@)[a]
                != ns.push(name@)[b] by {
                if b == ns.len() {
                    assert(ns[a] != name@);
                }
            }
        }
        self.names = names;
        i
    }
}

/// Meeting a name again gives it the same identifier and changes nothing;
/// distinct names get distinct identifiers.
pub proof fn lemma_interned_stable(names: Seq<Seq<char>>, a: Seq<char>, b: Seq<char>)
    requires
        names.no_duplicates(),
    ensures
        interned(names, a).0.no_duplicates(),
        interned(interned(names, a).0, a) == interned(names, a),
        a != b ==> interned(interned(names, a).0, b).1 != interned(names, a).1,
{
    let (n1, ia) = interned(names, a);
    if names.contains(a) {
        let c = choose|i: int| 0 <= i < names.len() && names[i] == a;
        assert(0 <= c < names.len() && names[c] == a);
    } else {
        assert(n1[names.len() as int] == a);
        assert(n1.contains(a));
        assert forall|x: int, y: int| 0 <= x < y < n1.len() implies n1[x] != n1[y] by {
            if y == names.len() {
                assert(names[x] != a);
            }
        }
        let c = choose|i: int| 0 <= i < n1.len() && n1[i] == a;
        assert(c == names.len());
    }
    assert(n1[ia] == a);
    if a != b {
        if n1.contains(b) {
            let c = choose|i: int| 0 <= i < n1.len() && n1[i] == b;
            assert(n1[c] == b);
        }
    }
}

} // verus!
