use vstd::prelude::*;

verus! {

/// The set of type labels ("source", architecture names, the sentinel)
/// observed for one (package, group key, version) triple. Kept as a vector
/// of distinct strings; its view is the set of their character sequences.
pub struct TypeSet {
    items: Vec<String>,
}

impl View for TypeSet {
    type V = Set<Seq<char>>;

    open spec fn view(&self) -> Set<Seq<char>> {
        self.sview().to_set()
    }
}

impl TypeSet {
    /// The labels in insertion order.
    pub closed spec fn sview(&self) -> Seq<Seq<char>> {
        self.items@.map_values(|s: String| s@)
    }

    /// No label occurs twice.
    pub open spec fn wf(&self) -> bool {
        forall|i: int, j: int|
            0 <= i < j < self.sview().len() ==> self.sview()[i] != self.sview()[j]
    }

    pub fn new() -> (r: Self)
        ensures
            r.wf(),
            r@ == Set::<Seq<char>>::empty(),
            r.sview() == Seq::<Seq<char>>::empty(),
    {
        let r = TypeSet { items: Vec::new() };
        proof {
            assert(r.sview() =~= Seq::<Seq<char>>::empty());
            assert(r@ =~= Set::<Seq<char>>::empty());
        }
        r
    }

    pub fn singleton(label: String) -> (r: Self)
        ensures
            r.wf(),
            r@ == Set::<Seq<char>>::empty().insert(label@),
            r.sview() == seq![label@],
    {
        let mut items: Vec<String> = Vec::new();
        items.push(label);
        let r = TypeSet { items };
        proof {
            assert(r.sview() =~= seq![label@]);
            assert(r.sview() =~= Seq::<Seq<char>>::empty().push(label@));
            lemma_to_set_push(Seq::<Seq<char>>::empty(), label@);
            assert(Seq::<Seq<char>>::empty().to_set() =~= Set::<Seq<char>>::empty());
        }
        r
    }

    pub fn len(&self) -> (r: usize)
        ensures
            r == self.sview().len(),
    {
        self.items.len()
    }

    pub fn get(&self, i: usize) -> (r: &String)
        requires
            i < self.sview().len(),
        ensures
            r@ == self.sview()[i as int],
    {
        &self.items[i]
    }

    pub fn contains(&self, label: &String) -> (r: bool)
        ensures
            r == self@.contains(label@),
    {
        let mut i: usize = 0;
        while i < self.items.len()
            invariant
                0 <= i <= self.items.len(),
                forall|j: int| 0 <= j < i ==> self.sview()[j] != label@,
        decreases self.items.len() - i,
        {
            if self.items[i].eq(label) {
                proof {
                    assert(self.sview()[i as int] == label@);
                    assert(self.sview().contains(label@));
                }
                return true;
            }
            i = i + 1;
        }
        proof {
            assert(!self.sview().contains(label@));
        }
        false
    }

    /// Adds a label; a label already present is not duplicated.
    pub fn insert(&mut self, label: String)
        requires
            old(self).wf(),
        ensures
            final(self).wf(),
            final(self)@ == old(self)@.insert(label@),
            final(self).sview() == if old(self)@.contains(label@) {
                old(self).sview()
            } else {
                old(self).sview().push(label@)
            },
    {
        if self.contains(&label) {
            proof {
                assert(self@ =~= old(self)@.insert(label@));
            }
        } else {
            self.items.push(label);
            proof {
                assert(self.sview() =~= old(self).sview().push(label@));
                lemma_to_set_push(old(self).sview(), label@);
            }
        }
    }

    /// An independent copy with the same labels in the same order.
    pub fn copied(&self) -> (r: Self)
        ensures
            r.sview() == self.sview(),
            r@ == self@,
            self.wf() ==> r.wf(),
    {
        let mut items: Vec<String> = Vec::new();
        let mut i: usize = 0;
        while i < self.items.len()
            invariant
                0 <= i <= self.items@.len(),
                items@.len() == i,
                forall|j: int| 0 <= j < i ==> items@[j]@ == self.sview()[j],
            decreases self.items@.len() - i,
        {
            items.push(self.items[i].clone());
            i = i + 1;
        }
        let r = TypeSet { items };
        proof {
            assert(r.sview() =~= self.sview());
        }
        r
    }

    /// Adds every label of `other`.
    pub fn extend_from(&mut self, other: &TypeSet)
        requires
            old(self).wf(),
        ensures
            final(self).wf(),
            final(self)@ == old(self)@ + other@,
    {
        let mut i: usize = 0;
        while i < other.items.len()
            invariant
                self.wf(),
                0 <= i <= other.sview().len(),
                self@ == old(self)@ + other.sview().take(i as int).to_set(),
            decreases other.items.len() - i,
        {
            let ghost pre = self@;
            self.insert(other.items[i].clone());
            proof {
                assert(other.sview().take(i + 1).drop_last() =~= other.sview().take(i as int));
                assert(other.sview().take(i + 1).last() == other.sview()[i as int]);
                lemma_to_set_push(other.sview().take(i as int), other.sview()[i as int]);
                assert(self@ =~= old(self)@ + other.sview().take(i + 1).to_set());
            }
            i = i + 1;
        }
        proof {
            assert(other.sview().take(other.sview().len() as int) =~= other.sview());
            assert(self@ =~= old(self)@ + other@);
        }
    }
}

/// Pushing onto a sequence inserts into its set of elements.
pub proof fn lemma_to_set_push<A>(s: Seq<A>, x: A)
    ensures
        s.push(x).to_set() == s.to_set().insert(x),
{
    assert forall|y: A| s.push(x).to_set().contains(y) <==> s.to_set().insert(x).contains(y) by {
        if s.push(x).contains(y) {
            let i = choose|i: int| 0 <= i < s.push(x).len() && s.push(x)[i] == y;
            if i < s.len() {
                assert(s[i] == y);
            }
        }
        if s.to_set().insert(x).contains(y) {
            if s.contains(y) {
                let i = choose|i: int| 0 <= i < s.len() && s[i] == y;
                assert(s.push(x)[i] == y);
            } else {
                assert(s.push(x)[s.len() as int] == y);
            }
        }
    }
    assert(s.push(x).to_set() =~= s.to_set().insert(x));
}

} // verus!
