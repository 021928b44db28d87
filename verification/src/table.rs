use vstd::prelude::*;
use crate::capability::AStarPoint;

verus! {

/// A record of point-keyed facts, kept as the sequence of entries in the
/// order they were set; the newest entry for a key is the one in force.
pub(crate) struct Table<P, V> {
    pub(crate) entries: Vec<(P, V)>,
}

/// The value in force for `p` among the entries `s`: that of the newest
/// entry keyed by `p`, or nothing when no entry carries that key.
pub(crate) open spec fn lookup<P, V>(s: Seq<(P, V)>, p: P) -> Option<V>
    decreases s.len(),
{
    if s.len() == 0 {
        None
    } else if s.last().0 == p {
        Some(s.last().1)
    } else {
        lookup(s.drop_last(), p)
    }
}

impl<P: AStarPoint, V: Copy> Table<P, V> {
    /// The entries set so far, oldest first.
    pub(crate) open spec fn rep(&self) -> Seq<(P, V)> {
        self.entries@
    }

    pub(crate) fn new() -> (t: Self)
        ensures
            t.rep() == Seq::<(P, V)>::empty(),
    {
        Table { entries: Vec::new() }
    }

    pub(crate) fn get(&self, p: &P) -> (r: Option<V>)
        ensures
            r == lookup(self.rep(), *p),
    {
        let mut i: usize = self.entries.len();
        proof {
            assert(self.entries@.take(i as int) =~= self.entries@);
        }
        while i > 0
            invariant
                i <= self.entries.len(),
                lookup(self.entries@, *p) == lookup(self.entries@.take(i as int), *p),
            decreases i,
        {
            let j = i - 1;
            let hit = self.entries[j].0.eq_point(p);
            proof {
                let pre = self.entries@.take(i as int);
                assert(pre.last() == self.entries@[j as int]);
                assert(pre.drop_last() =~= self.entries@.take(j as int));
            }
            if hit {
                return Some(self.entries[j].1);
            }
            i = j;
        }
        proof {
            assert(self.entries@.take(0).len() == 0);
        }
        None
    }

    pub(crate) fn set(&mut self, p: P, v: V)
        ensures
            final(self).rep() == old(self).rep().push((p, v)),
    {
        self.entries.push((p, v));
    }
}

/// Setting a key leaves every other key's value in force and puts the new
/// value in force for that key.
pub(crate) proof fn lemma_lookup_push<P, V>(s: Seq<(P, V)>, p: P, v: V, q: P)
    ensures
        lookup(s.push((p, v)), q) == if q == p {
            Some(v)
        } else {
            lookup(s, q)
        },
{
    assert(s.push((p, v)).drop_last() =~= s);
    assert(s.push((p, v)).last() == (p, v));
}

/// A record whose keys are pairwise distinct and all drawn from one finite
/// set has no more entries than the set has elements.
pub(crate) proof fn lemma_distinct_keys_bound<P, V>(s: Seq<(P, V)>, world: Set<P>)
    requires
        world.finite(),
        forall|i: int, j: int| 0 <= i < j < s.len() ==> (#[trigger] s[i]).0 != (#[trigger] s[j]).0,
        forall|i: int| 0 <= i < s.len() ==> world.contains((#[trigger] s[i]).0),
    ensures
        s.len() <= world.len(),
    decreases s.len(),
{
    if s.len() > 0 {
        let k = s.last().0;
        let s0 = s.drop_last();
        assert(world.contains(s[s.len() - 1].0));
        assert forall|i: int|
            0 <= i < s0.len() implies world.remove(k).contains((#[trigger] s0[i]).0) by {
            assert(s0[i] == s[i]);
            assert(s[i].0 != s[s.len() - 1].0);
        }
        assert forall|i: int, j: int|
            0 <= i < j < s0.len() implies (#[trigger] s0[i]).0 != (#[trigger] s0[j]).0 by {
            assert(s0[i] == s[i] && s0[j] == s[j]);
        }
        lemma_distinct_keys_bound(s0, world.remove(k));
    }
}

/// A key borne by some entry has a value in force: the record answers for
/// every key it has ever held.
pub(crate) proof fn lemma_entry_lookup<P, V>(s: Seq<(P, V)>, i: int)
    requires
        0 <= i < s.len(),
    ensures
        lookup(s, s[i].0) is Some,
    decreases s.len(),
{
    if i < s.len() - 1 && s.last().0 != s[i].0 {
        lemma_entry_lookup(s.drop_last(), i);
        assert(s.drop_last()[i] == s[i]);
    }
}

/// A value in force comes from some entry of the record.
pub(crate) proof fn lemma_lookup_index<P, V>(s: Seq<(P, V)>, q: P)
    requires
        lookup(s, q) is Some,
    ensures
        exists|i: int|
            0 <= i < s.len() && (#[trigger] s[i]).0 == q && s[i].1 == lookup(s, q)->Some_0,
    decreases s.len(),
{
    if s.len() > 0 {
        if s.last().0 == q {
            assert(s[s.len() - 1].0 == q && s[s.len() - 1].1 == lookup(s, q)->Some_0);
        } else {
            lemma_lookup_index(s.drop_last(), q);
            let i = choose|i: int|
                0 <= i < s.drop_last().len() && (#[trigger] s.drop_last()[i]).0 == q
                    && s.drop_last()[i].1 == lookup(s.drop_last(), q)->Some_0;
            assert(s[i].0 == q && s[i].1 == lookup(s, q)->Some_0);
        }
    }
}

} // verus!
