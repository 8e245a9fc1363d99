use vstd::prelude::*;

verus! {

/// The sets held in a list of node-index vectors.
pub open spec fn sets_of(v: Seq<Vec<usize>>) -> Seq<Set<usize>> {
    Seq::new(v.len(), |i: int| v[i]@.to_set())
}

/// The node indices below `n`.
pub open spec fn below(n: usize) -> Set<usize> {
    Set::new(|x: usize| x < n)
}

pub proof fn lemma_below_finite(n: usize)
    ensures
        below(n).finite(),
        below(n).len() == n,
{
    assert(below(n) =~= Set::<usize>::range(0, n));
    vstd::set_lib::range_set_properties::<usize>(0, n);
}

/// Adds `x` to the set held in `s`, unless it is already there.
pub fn set_insert(s: &mut Vec<usize>, x: usize)
    ensures
        final(s)@.to_set() == old(s)@.to_set().insert(x),
{
    let mut i: usize = 0;
    while i < s.len()
        invariant
            0 <= i <= s.len(),
            forall|j: int| 0 <= j < i ==> s@[j] != x,
        decreases s.len() - i,
    {
        if s[i] == x {
            proof {
                assert(s@.to_set().contains(x)) by {
                    assert(s@.contains(x));
                }
                assert(s@.to_set().insert(x) =~= s@.to_set());
            }
            return;
        }
        i += 1;
    }
    let ghost before = s@;
    s.push(x);
    proof {
        assert forall|y: usize| s@.to_set().contains(y) == before.to_set().insert(x).contains(y) by {
            if before.contains(y) {
                let j = choose|j: int| 0 <= j < before.len() && before[j] == y;
                assert(s@[j] == y);
            }
            if s@.contains(y) && y != x {
                let j = choose|j: int| 0 <= j < s@.len() && s@[j] == y;
                assert(j < before.len());
                assert(before[j] == y);
            }
            assert(s@[s@.len() - 1] == x);
        }
        assert(s@.to_set() =~= before.to_set().insert(x));
    }
}

/// Whether the set held in `s` contains `x`.
pub fn set_contains(s: &Vec<usize>, x: usize) -> (res: bool)
    ensures
        res == s@.to_set().contains(x),
{
    let mut i: usize = 0;
    while i < s.len()
        invariant
            0 <= i <= s.len(),
            forall|j: int| 0 <= j < i ==> s@[j] != x,
        decreases s.len() - i,
    {
        if s[i] == x {
            assert(s@.contains(x));
            return true;
        }
        i += 1;
    }
    assert(!s@.contains(x));
    false
}

pub proof fn lemma_to_set_push<A>(s: Seq<A>, x: A)
    ensures
        s.push(x).to_set() == s.to_set().insert(x),
{
    assert forall|y: A| s.push(x).to_set().contains(y) == s.to_set().insert(x).contains(y) by {
        if s.contains(y) {
            let j = choose|j: int| 0 <= j < s.len() && s[j] == y;
            assert(s.push(x)[j] == y);
        }
        if s.push(x).contains(y) && y != x {
            let j = choose|j: int| 0 <= j < s.push(x).len() && s.push(x)[j] == y;
            assert(s[j] == y);
        }
        assert(s.push(x)[s.len() as int] == x);
    }
    assert(s.push(x).to_set() =~= s.to_set().insert(x));
}

pub proof fn lemma_to_set_drop_last<A>(s: Seq<A>)
    requires
        s.len() > 0,
    ensures
        s.to_set() == s.drop_last().to_set().insert(s.last()),
{
    assert(s.drop_last().push(s.last()) =~= s);
    lemma_to_set_push(s.drop_last(), s.last());
}

pub proof fn lemma_to_set_take_succ<A>(s: Seq<A>, j: int)
    requires
        0 <= j < s.len(),
    ensures
        s.take(j + 1).to_set() == s.take(j).to_set().insert(s[j]),
{
    assert(s.take(j).push(s[j]) =~= s.take(j + 1));
    lemma_to_set_push(s.take(j), s[j]);
}

pub proof fn lemma_to_set_drop_first<A>(s: Seq<A>)
    requires
        s.len() > 0,
    ensures
        s.to_set() == s.subrange(1, s.len() as int).to_set().insert(s[0]),
{
    let t = s.subrange(1, s.len() as int);
    assert forall|y: A| s.to_set().contains(y) == t.to_set().insert(s[0]).contains(y) by {
        if s.contains(y) && y != s[0] {
            let j = choose|j: int| 0 <= j < s.len() && s[j] == y;
            assert(t[j - 1] == y);
        }
        if t.contains(y) {
            let j = choose|j: int| 0 <= j < t.len() && t[j] == y;
            assert(s[j + 1] == y);
        }
        assert(s[0] == s[0]);
    }
    assert(s.to_set() =~= t.to_set().insert(s[0]));
}

pub proof fn lemma_to_set_full_take<A>(s: Seq<A>)
    ensures
        s.take(s.len() as int) == s,
{
    assert(s.take(s.len() as int) =~= s);
}

} // verus!
