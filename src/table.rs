use vstd::prelude::*;

verus! {

/// The terms of a document, as character sequences.
pub open spec fn terms_of(doc: Seq<String>) -> Seq<Seq<char>> {
    doc.map_values(|s: String| s@)
}

/// How many positions of `doc` hold `t`.
pub open spec fn occurrences(doc: Seq<Seq<char>>, t: Seq<char>) -> nat
    decreases doc.len(),
{
    if doc.len() == 0 {
        0
    } else {
        occurrences(doc.drop_last(), t) + if doc.last() == t { 1nat } else { 0nat }
    }
}

/// The count that `m` records for `t`, zero where it records none.
pub open spec fn count_in(m: Map<Seq<char>, nat>, t: Seq<char>) -> nat {
    if m.contains_key(t) {
        m[t]
    } else {
        0
    }
}

/// Every term of `doc` mapped to its number of occurrences in `doc`.
pub open spec fn document_counts(doc: Seq<Seq<char>>) -> Map<Seq<char>, nat> {
    Map::new(|t: Seq<char>| doc.contains(t), |t: Seq<char>| occurrences(doc, t))
}

/// The pointwise sum of two count mappings.
pub open spec fn add_counts(m: Map<Seq<char>, nat>, d: Map<Seq<char>, nat>) -> Map<Seq<char>, nat> {
    Map::new(
        |t: Seq<char>| m.contains_key(t) || d.contains_key(t),
        |t: Seq<char>| count_in(m, t) + count_in(d, t),
    )
}

/// Whether adding `d` to `m` keeps every count within `u64`.
pub open spec fn sum_fits(m: Map<Seq<char>, nat>, d: Map<Seq<char>, nat>) -> bool {
    forall|t: Seq<char>| count_in(m, t) + count_in(d, t) <= u64::MAX
}

/// A term occurs at most as often as the document is long, and at all exactly when the
/// document holds it.
pub proof fn lemma_occurrences_bounded(doc: Seq<Seq<char>>, t: Seq<char>)
    ensures
        occurrences(doc, t) <= doc.len(),
        occurrences(doc, t) > 0 <==> doc.contains(t),
    decreases doc.len(),
{
    if doc.len() > 0 {
        lemma_occurrences_bounded(doc.drop_last(), t);
        if doc.drop_last().contains(t) {
            let i = choose|i: int| 0 <= i < doc.drop_last().len() && doc.drop_last()[i] == t;
            assert(doc[i] == t);
        }
        if doc.contains(t) && doc.last() != t {
            let i = choose|i: int| 0 <= i < doc.len() && doc[i] == t;
            assert(doc.drop_last()[i] == t);
        }
    }
}

/// A mapping from terms to counts, held as parallel vectors with unique terms.
pub struct FrequencyTable {
    terms: Vec<String>,
    counts: Vec<u64>,
}

/// The position of `t` among `keys`, when it is there.
pub open spec fn position_of(keys: Seq<Seq<char>>, t: Seq<char>) -> int {
    choose|i: int| 0 <= i < keys.len() && keys[i] == t
}

impl View for FrequencyTable {
    type V = Map<Seq<char>, nat>;

    closed spec fn view(&self) -> Map<Seq<char>, nat> {
        let keys = self.keys();
        Map::new(
            |t: Seq<char>| keys.contains(t),
            |t: Seq<char>| self.counts@[position_of(keys, t)] as nat,
        )
    }
}

impl FrequencyTable {
    /// The terms held, in the order they were first added.
    pub closed spec fn keys(&self) -> Seq<Seq<char>> {
        terms_of(self.terms@)
    }

    /// The terms are pairwise distinct and each has exactly one count.
    pub closed spec fn wf(&self) -> bool {
        &&& self.terms@.len() == self.counts@.len()
        &&& terms_of(self.terms@).no_duplicates()
    }

    /// An empty table.
    pub fn new() -> (r: FrequencyTable)
        ensures
            r.wf(),
            r@ == Map::<Seq<char>, nat>::empty(),
    {
        let r = FrequencyTable { terms: Vec::new(), counts: Vec::new() };
        assert(r@ =~= Map::<Seq<char>, nat>::empty());
        r
    }

    /// Every count held fits in a `u64`.
    pub proof fn lemma_counts_fit(&self)
        requires
            self.wf(),
        ensures
            forall|t: Seq<char>| #[trigger] self@.contains_key(t) ==> self@[t] <= u64::MAX,
    {
        assert forall|t: Seq<char>| #[trigger] self@.contains_key(t) implies self@[t] <= u64::MAX by {
            let keys = self.keys();
            let j = position_of(keys, t);
            assert(keys[j] == t);
        }
    }

    /// The number of distinct terms held.
    pub fn len(&self) -> (r: usize)
        requires
            self.wf(),
        ensures
            r == self@.len(),
    {
        proof {
            self.lemma_dom();
        }
        self.terms.len()
    }

    /// The terms, in the order they were first added.
    pub fn terms(&self) -> (r: &Vec<String>)
        requires
            self.wf(),
        ensures
            terms_of(r@) == self.keys(),
            self.keys().to_set() == self@.dom(),
            self.keys().no_duplicates(),
    {
        proof {
            assert(terms_of(self.terms@).to_set() =~= self@.dom());
        }
        &self.terms
    }

    /// The counts, position for position with `terms`.
    pub fn counts(&self) -> (r: &Vec<u64>)
        requires
            self.wf(),
        ensures
            r@.len() == self.keys().len(),
            forall|i: int| 0 <= i < r@.len() ==> self@[#[trigger] self.keys()[i]] == r@[i] as nat,
    {
        proof {
            assert forall|i: int| 0 <= i < self.counts@.len() implies self@[#[trigger] self.keys()[i]]
                == self.counts@[i] as nat by {
                self.lemma_position(i);
            }
        }
        &self.counts
    }

    proof fn lemma_position(&self, i: int)
        requires
            self.wf(),
            0 <= i < self.terms@.len(),
        ensures
            position_of(terms_of(self.terms@), self.terms@[i]@) == i,
            self@.contains_key(self.terms@[i]@),
            self@[self.terms@[i]@] == self.counts@[i] as nat,
    {
        let keys = terms_of(self.terms@);
        assert(keys[i] == self.terms@[i]@);
        assert(keys.contains(keys[i]));
    }

    proof fn lemma_dom(&self)
        requires
            self.wf(),
        ensures
            self@.dom().len() == self.terms@.len(),
            self@.dom() == terms_of(self.terms@).to_set(),
    {
        let keys = terms_of(self.terms@);
        assert(self@.dom() =~= keys.to_set());
        keys.unique_seq_to_set();
    }

    /// Looks up the position of `term`.
    fn find(&self, term: &String) -> (r: Option<usize>)
        requires
            self.wf(),
        ensures
            match r {
                Some(i) => i < self.terms@.len() && self.terms@[i as int]@ == term@,
                None => !self@.contains_key(term@),
            },
    {
        let mut i: usize = 0;
        while i < self.terms.len()
            invariant
                i <= self.terms@.len(),
                forall|j: int| 0 <= j < i ==> self.terms@[j]@ != term@,
            decreases self.terms@.len() - i,
        {
            if self.terms[i] == *term {
                return Some(i);
            }
            i = i + 1;
        }
        proof {
            let keys = terms_of(self.terms@);
            if keys.contains(term@) {
                let j = choose|j: int| 0 <= j < keys.len() && keys[j] == term@;
                assert(self.terms@[j]@ == term@);
            }
        }
        None
    }

    /// The count recorded for `term`, if any.
    pub fn get(&self, term: &String) -> (r: Option<u64>)
        requires
            self.wf(),
        ensures
            r == (if self@.contains_key(term@) { Some(self@[term@] as u64) } else { None::<u64> }),
            self@.contains_key(term@) ==> self@[term@] <= u64::MAX,
    {
        match self.find(term) {
            Some(i) => {
                proof {
                    self.lemma_position(i as int);
                }
                Some(self.counts[i])
            },
            None => None,
        }
    }

    /// Adds `count` to the count of `term`, recording the term first if it is new.
    pub fn add(&mut self, term: &String, count: u64)
        requires
            old(self).wf(),
            count_in(old(self)@, term@) + count <= u64::MAX,
        ensures
            final(self).wf(),
            final(self)@ == old(self)@.insert(term@, (count_in(old(self)@, term@) + count) as nat),
    {
        let ghost before = self@;
        match self.find(term) {
            Some(i) => {
                proof {
                    self.lemma_position(i as int);
                }
                let c = self.counts[i] + count;
                self.counts.set(i, c);
                proof {
                    let keys = terms_of(self.terms@);
                    assert forall|t: Seq<char>| keys.contains(t) implies self.counts@[position_of(
                        keys,
                        t,
                    )] as nat == (if t == term@ {
                        (count_in(before, term@) + count) as nat
                    } else {
                        before[t]
                    }) by {
                        let j = position_of(keys, t);
                        assert(keys[j] == t);
                        if t == term@ {
                            assert(keys[i as int] == t);
                        } else {
                            assert(j != i);
                        }
                    }
                    assert(self@ =~= before.insert(term@, (count_in(before, term@) + count) as nat));
                }
            },
            None => {
                let ghost old_keys = terms_of(self.terms@);
                let ghost old_counts = self.counts@;
                self.terms.push(term.clone());
                self.counts.push(count);
                proof {
                    let keys = terms_of(self.terms@);
                    assert(keys =~= old_keys.push(term@));
                    assert(!old_keys.contains(term@));
                    assert forall|t: Seq<char>| keys.contains(t) implies self.counts@[position_of(
                        keys,
                        t,
                    )] as nat == (if t == term@ {
                        count as nat
                    } else {
                        before[t]
                    }) && (t != term@ ==> old_keys.contains(t)) by {
                        let j = position_of(keys, t);
                        assert(keys[j] == t);
                        if t != term@ {
                            assert(j < old_keys.len());
                            assert(old_keys[j] == t);
                            let k = position_of(old_keys, t);
                            assert(old_keys[k] == t);
                            assert(keys[k] == t);
                        }
                    }
                    assert forall|t: Seq<char>| old_keys.contains(t) implies keys.contains(t) by {
                        let j = choose|j: int| 0 <= j < old_keys.len() && old_keys[j] == t;
                        assert(keys[j] == t);
                    }
                    assert(keys[keys.len() - 1] == term@);
                    assert(self@ =~= before.insert(term@, count as nat));
                }
            },
        }
    }
}

impl FrequencyTable {
    /// Adds every count of `other` to the count of the same term here.
    pub fn add_all(&mut self, other: &FrequencyTable)
        requires
            old(self).wf(),
            other.wf(),
            sum_fits(old(self)@, other@),
        ensures
            final(self).wf(),
            final(self)@ == add_counts(old(self)@, other@),
    {
        let ghost start = self@;
        let ghost keys = other.keys();
        proof {
            assert(start =~= add_counts(start, other@.restrict(keys.take(0).to_set())));
        }
        let mut i: usize = 0;
        while i < other.terms.len()
            invariant
                other.wf(),
                keys == other.keys(),
                i <= keys.len(),
                sum_fits(start, other@),
                self.wf(),
                self@ == add_counts(start, other@.restrict(keys.take(i as int).to_set())),
            decreases keys.len() - i,
        {
            let ghost done = other@.restrict(keys.take(i as int).to_set());
            let term = &other.terms[i];
            proof {
                other.lemma_position(i as int);
                assert(keys[i as int] == term@);
                assert(!keys.take(i as int).contains(term@)) by {
                    if keys.take(i as int).contains(term@) {
                        let j = choose|j: int| 0 <= j < i && keys.take(i as int)[j] == term@;
                        assert(keys[j] == keys[i as int]);
                    }
                }
                assert(count_in(self@, term@) == count_in(start, term@));
                assert(count_in(other@, term@) == other.counts@[i as int]);
            }
            self.add(term, other.counts[i]);
            proof {
                assert forall|t: Seq<char>| keys.take(i + 1).contains(t) <==> keys.take(
                    i as int,
                ).contains(t) || t == term@ by {
                    if keys.take(i + 1).contains(t) && t != term@ {
                        let j = choose|j: int| 0 <= j < i + 1 && #[trigger] keys.take(i + 1)[j] == t;
                        assert(keys.take(i as int)[j] == t);
                    }
                    if keys.take(i as int).contains(t) {
                        let j = choose|j: int| 0 <= j < i && #[trigger] keys.take(i as int)[j] == t;
                        assert(keys.take(i + 1)[j] == t);
                    }
                    if t == term@ {
                        assert(keys.take(i + 1)[i as int] == t);
                    }
                }
                assert(keys.take(i + 1).to_set() =~= keys.take(i as int).to_set().insert(term@));
                assert(self@ =~= add_counts(start, other@.restrict(keys.take(i + 1).to_set())));
            }
            i = i + 1;
        }
        proof {
            assert(keys.take(i as int) =~= keys);
            other.lemma_dom();
            assert(other@.restrict(keys.to_set()) =~= other@);
        }
    }
}

/// A term-to-index mapping: the index of a term is its position among `terms`.
pub struct Vocabulary {
    terms: Vec<String>,
}

impl View for Vocabulary {
    type V = Seq<Seq<char>>;

    closed spec fn view(&self) -> Seq<Seq<char>> {
        terms_of(self.terms@)
    }
}

impl Vocabulary {
    /// No term has two indices.
    pub open spec fn wf(&self) -> bool {
        self@.no_duplicates()
    }

    /// An empty vocabulary.
    pub fn new() -> (r: Vocabulary)
        ensures
            r.wf(),
            r@ == Seq::<Seq<char>>::empty(),
    {
        let r = Vocabulary { terms: Vec::new() };
        assert(r@ =~= Seq::<Seq<char>>::empty());
        r
    }

    /// The number of terms held, which is also the next index to assign.
    pub fn len(&self) -> (r: usize)
        ensures
            r == self@.len(),
    {
        self.terms.len()
    }

    /// The terms, each at its index.
    pub fn terms(&self) -> (r: &Vec<String>)
        ensures
            terms_of(r@) == self@,
    {
        &self.terms
    }

    /// The index of `term`, if it has one.
    pub fn index_of(&self, term: &String) -> (r: Option<usize>)
        requires
            self.wf(),
        ensures
            match r {
                Some(i) => i < self@.len() && self@[i as int] == term@,
                None => !self@.contains(term@),
            },
    {
        let mut i: usize = 0;
        while i < self.terms.len()
            invariant
                i <= self.terms@.len(),
                forall|j: int| 0 <= j < i ==> self.terms@[j]@ != term@,
            decreases self.terms@.len() - i,
        {
            if self.terms[i] == *term {
                return Some(i);
            }
            i = i + 1;
        }
        proof {
            if self@.contains(term@) {
                let j = choose|j: int| 0 <= j < self@.len() && self@[j] == term@;
                assert(self.terms@[j]@ == term@);
            }
        }
        None
    }

    /// Gives `term` the next index. It must not have one yet.
    pub fn push(&mut self, term: &String)
        requires
            old(self).wf(),
            !old(self)@.contains(term@),
        ensures
            final(self).wf(),
            final(self)@ == old(self)@.push(term@),
    {
        self.terms.push(term.clone());
        assert(self@ =~= old(self)@.push(term@));
    }
}

} // verus!
