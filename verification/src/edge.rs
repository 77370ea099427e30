//! Edges as canonical pairs of vertex indices, and a small insertion-ordered
//! set of them.

use vstd::prelude::*;

verus! {

/// An unordered pair of vertex indices. In canonical form the smaller index
/// comes first.
pub type Edge = (u32, u32);

/// The canonical form of `e`: its two indices with the smaller one first.
pub open spec fn canonical(e: Edge) -> Edge {
    if e.0 > e.1 {
        (e.1, e.0)
    } else {
        e
    }
}

/// Whether `e` has `v` as one of its endpoints.
pub open spec fn touches(e: Edge, v: u32) -> bool {
    e.0 == v || e.1 == v
}

/// Puts the smaller index of `e` first.
pub fn canonical_edge(e: &Edge) -> (c: Edge)
    ensures
        c == canonical(*e),
{
    if e.0 > e.1 {
        (e.1, e.0)
    } else {
        (e.0, e.1)
    }
}

/// A finite set of edges that remembers the order in which they were added.
pub struct EdgeSet {
    items: Vec<Edge>,
}

impl EdgeSet {
    /// The members in the order in which they were inserted.
    pub closed spec fn order(&self) -> Seq<Edge> {
        self.items@
    }

    /// No edge is held twice.
    pub open spec fn wf(&self) -> bool {
        self.order().no_duplicates()
    }

    /// The members as a mathematical set.
    pub open spec fn view(&self) -> Set<Edge> {
        self.order().to_set()
    }

    pub fn new() -> (s: EdgeSet)
        ensures
            s.wf(),
            s.order() == Seq::<Edge>::empty(),
            s@ == Set::<Edge>::empty(),
    {
        let s = EdgeSet { items: Vec::new() };
        assert(s.order().to_set() =~= Set::<Edge>::empty());
        s
    }

    pub fn len(&self) -> (n: usize)
        requires
            self.wf(),
        ensures
            n == self.order().len(),
            n == self@.len(),
    {
        proof {
            self.order().unique_seq_to_set();
        }
        self.items.len()
    }

    /// The member at position `i` of the insertion order.
    pub fn get(&self, i: usize) -> (e: Edge)
        requires
            i < self.order().len(),
        ensures
            e == self.order()[i as int],
    {
        self.items[i]
    }

    /// The members as a vector, in insertion order.
    pub fn to_vec(&self) -> (v: Vec<Edge>)
        ensures
            v@ == self.order(),
            v@.to_set() == self@,
    {
        let mut v: Vec<Edge> = Vec::new();
        let mut i: usize = 0;
        while i < self.items.len()
            invariant
                i <= self.items.len(),
                v@ == self.items@.take(i as int),
            decreases self.items.len() - i,
        {
            v.push(self.items[i]);
            assert(self.items@.take(i + 1) =~= self.items@.take(i as int).push(self.items@[i as int]));
            i += 1;
        }
        assert(self.items@.take(self.items.len() as int) =~= self.items@);
        v
    }

    /// The position of `e` in the insertion order, if it is a member.
    pub fn position(&self, e: &Edge) -> (r: Option<usize>)
        ensures
            match r {
                Some(i) => i < self.order().len() && self.order()[i as int] == *e,
                None => !self@.contains(*e),
            },
    {
        let mut i: usize = 0;
        while i < self.items.len()
            invariant
                i <= self.items.len(),
                forall|j: int| 0 <= j < i ==> self.items@[j] != *e,
            decreases self.items.len() - i,
        {
            let x = self.items[i];
            if x.0 == e.0 && x.1 == e.1 {
                return Some(i);
            }
            i += 1;
        }
        None
    }

    pub fn contains(&self, e: &Edge) -> (r: bool)
        ensures
            r == self@.contains(*e),
    {
        self.position(e).is_some()
    }

    /// Adds `e` at the end of the order unless it is a member already.
    /// Returns whether it was added.
    pub fn insert(&mut self, e: Edge) -> (added: bool)
        requires
            old(self).wf(),
        ensures
            final(self).wf(),
            added == !old(self)@.contains(e),
            final(self)@ == old(self)@.insert(e),
            final(self).order() == if added {
                old(self).order().push(e)
            } else {
                old(self).order()
            },
    {
        if self.contains(&e) {
            assert(self@.insert(e) =~= self@);
            false
        } else {
            self.items.push(e);
            assert(self.order().to_set() =~= old(self).order().to_set().insert(e)) by {
                assert forall|x: Edge| self.order().contains(x) <==> (x == e || old(
                    self,
                ).order().contains(x)) by {
                    if self.order().contains(x) {
                        let j = choose|j: int| 0 <= j < self.order().len() && self.order()[j] == x;
                        if j < old(self).order().len() {
                            assert(old(self).order()[j] == x);
                        }
                    }
                    if x == e {
                        assert(self.order()[old(self).order().len() as int] == e);
                    }
                    if old(self).order().contains(x) {
                        let j = choose|j: int|
                            0 <= j < old(self).order().len() && old(self).order()[j] == x;
                        assert(self.order()[j] == x);
                    }
                }
            }
            true
        }
    }

    /// Takes `e` out, keeping the others in their order. Returns whether it
    /// was a member.
    pub fn remove(&mut self, e: &Edge) -> (removed: bool)
        requires
            old(self).wf(),
        ensures
            final(self).wf(),
            removed == old(self)@.contains(*e),
            final(self)@ == old(self)@.remove(*e),
            final(self).order() == without(old(self).order(), *e),
    {
        match self.position(e) {
            Some(i) => {
                self.items.remove(i);
                proof {
                    lemma_remove_at(old(self).order(), i as int);
                }
                true
            },
            None => {
                proof {
                    lemma_without_absent(self.order(), set![*e]);
                    assert(self@.remove(*e) =~= self@);
                }
                false
            },
        }
    }
}

/// The edges of `s` that are not in `gone`, in their order.
pub open spec fn without_all(s: Seq<Edge>, gone: Set<Edge>) -> Seq<Edge>
    decreases s.len(),
{
    if s.len() == 0 {
        s
    } else {
        let front = without_all(s.drop_last(), gone);
        if gone.contains(s.last()) {
            front
        } else {
            front.push(s.last())
        }
    }
}

/// The edges of `s` other than `e`, in their order.
pub open spec fn without(s: Seq<Edge>, e: Edge) -> Seq<Edge> {
    without_all(s, set![e])
}

/// Taking out edges that do not occur leaves the sequence as it is.
pub proof fn lemma_without_absent(s: Seq<Edge>, gone: Set<Edge>)
    requires
        forall|i: int| 0 <= i < s.len() ==> !gone.contains(#[trigger] s[i]),
    ensures
        without_all(s, gone) == s,
    decreases s.len(),
{
    if s.len() > 0 {
        assert(!gone.contains(s[s.len() - 1]));
        assert forall|i: int| 0 <= i < s.drop_last().len() implies !gone.contains(
            #[trigger] s.drop_last()[i],
        ) by {
            assert(s.drop_last()[i] == s[i]);
        }
        lemma_without_absent(s.drop_last(), gone);
        assert(s.drop_last().push(s.last()) =~= s);
    }
}

/// Taking out one set of edges and then another is taking out both.
pub proof fn lemma_without_twice(s: Seq<Edge>, a: Set<Edge>, b: Set<Edge>)
    ensures
        without_all(without_all(s, a), b) == without_all(s, a + b),
    decreases s.len(),
{
    if s.len() > 0 {
        lemma_without_twice(s.drop_last(), a, b);
        let front = without_all(s.drop_last(), a);
        if !a.contains(s.last()) {
            assert(front.push(s.last()).drop_last() =~= front);
        }
    }
}

/// In a sequence without duplicates, removing position `i` is taking out
/// the edge found there.
pub proof fn lemma_remove_at(s: Seq<Edge>, i: int)
    requires
        s.no_duplicates(),
        0 <= i < s.len(),
    ensures
        s.remove(i).no_duplicates(),
        s.remove(i) == without(s, s[i]),
        s.remove(i).to_set() == s.to_set().remove(s[i]),
    decreases s.len(),
{
    let e = s[i];
    let r = s.remove(i);
    assert(r.no_duplicates());
    assert(r.to_set() =~= s.to_set().remove(e)) by {
        assert forall|x: Edge| r.contains(x) <==> (s.contains(x) && x != e) by {
            if r.contains(x) {
                let j = choose|j: int| 0 <= j < r.len() && r[j] == x;
                if j < i {
                    assert(s[j] == x);
                } else {
                    assert(s[j + 1] == x);
                }
            }
            if s.contains(x) && x != e {
                let j = choose|j: int| 0 <= j < s.len() && s[j] == x;
                if j < i {
                    assert(r[j] == x);
                } else {
                    assert(r[j - 1] == x);
                }
            }
        }
    }
    if i == s.len() - 1 {
        assert(r =~= s.drop_last());
        lemma_without_absent(r, set![e]);
    } else {
        lemma_remove_at(s.drop_last(), i);
        assert(s.drop_last().remove(i).push(s.last()) =~= r);
        assert(s.drop_last()[i] == e);
        assert(s.last() != e);
    }
}

} // verus!
