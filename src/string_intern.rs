//! Interning of labels: each distinct string gets a small dense atom.
use vstd::hash_map::StringHashMap;
use vstd::prelude::*;

verus! {

/// A small dense handle that stands for an interned string.
pub type Atom = usize;

/// Two-way mapping between strings and the atoms that stand for them.
///
/// Atoms are handed out in order: the `n`-th distinct string interned
/// gets atom `n`.
pub struct StringIntern {
    to_atom: StringHashMap<Atom>,
    from_atom: Vec<String>,
}

impl View for StringIntern {
    type V = Seq<Seq<char>>;

    /// The interned strings, indexed by atom.
    closed spec fn view(&self) -> Seq<Seq<char>> {
        self.from_atom@.map_values(|s: String| s@)
    }
}

/// The strings after `s` is interned into a table holding `strings`.
pub open spec fn after_intern(strings: Seq<Seq<char>>, s: Seq<char>) -> Seq<Seq<char>> {
    if strings.contains(s) {
        strings
    } else {
        strings.push(s)
    }
}

impl StringIntern {
    /// The table holds each string at most once, and the two directions agree.
    pub closed spec fn wf(&self) -> bool {
        &&& forall|i: int|
            0 <= i < self.from_atom@.len() ==> #[trigger] self.to_atom@.contains_key(
                self.from_atom@[i]@,
            ) && self.to_atom@[self.from_atom@[i]@] == i
        &&& forall|k: Seq<char>| #[trigger]
            self.to_atom@.contains_key(k) ==> self.to_atom@[k] < self.from_atom@.len()
                && self.from_atom@[self.to_atom@[k] as int]@ == k
    }

    pub proof fn lemma_distinct(&self)
        requires
            self.wf(),
        ensures
            forall|i: int, j: int|
                0 <= i < self@.len() && 0 <= j < self@.len() && #[trigger] self@[i]
                    == #[trigger] self@[j] ==> i == j,
    {
        assert forall|i: int, j: int|
            0 <= i < self@.len() && 0 <= j < self@.len() && #[trigger] self@[i]
                == #[trigger] self@[j] implies i == j by {
            assert(self@[i] == self.from_atom@[i]@);
            assert(self@[j] == self.from_atom@[j]@);
            assert(self.to_atom@.contains_key(self.from_atom@[i]@));
            assert(self.to_atom@.contains_key(self.from_atom@[j]@));
        }
    }

    pub fn new() -> (r: StringIntern)
        ensures
            r.wf(),
            r@ == Seq::<Seq<char>>::empty(),
    {
        let r = StringIntern { to_atom: StringHashMap::new(), from_atom: Vec::new() };
        assert(r@ =~= Seq::<Seq<char>>::empty());
        r
    }

    /// Returns the atom of `s`, giving it the next free atom if it is new.
    pub fn add(&mut self, s: &str) -> (r: Atom)
        requires
            old(self).wf(),
        ensures
            final(self).wf(),
            final(self)@ == after_intern(old(self)@, s@),
            0 <= r < final(self)@.len(),
            final(self)@[r as int] == s@,
            old(self)@.contains(s@) ==> r < old(self)@.len(),
            !old(self)@.contains(s@) ==> r == old(self)@.len(),
    {
        match self.to_atom.get(s) {
            Some(v) => {
                let a = *v;
                assert(self@[a as int] == self.from_atom@[a as int]@);
                return a;
            },
            None => {},
        }
        proof {
            if self@.contains(s@) {
                let i = choose|i: int| 0 <= i < self@.len() && self@[i] == s@;
                assert(self@[i] == self.from_atom@[i]@);
            }
        }
        let new_id = self.from_atom.len();
        self.to_atom.insert(s.to_owned(), new_id);
        self.from_atom.push(s.to_owned());
        assert(self@ =~= old(self)@.push(s@));
        assert(self@[new_id as int] == s@);
        new_id
    }

    /// The string that `atom` stands for.
    pub fn get(&self, atom: &Atom) -> (r: &str)
        requires
            self.wf(),
            *atom < self@.len(),
        ensures
            r@ == self@[*atom as int],
    {
        self.from_atom[*atom].as_str()
    }

    /// The number of atoms handed out.
    pub fn len(&self) -> (r: usize)
        ensures
            r == self@.len(),
    {
        self.from_atom.len()
    }
}

/// Interning is idempotent: interning an equal string again returns the
/// same atom and leaves the table as it was, and the atom resolves back to
/// the string.
pub proof fn lemma_intern_idempotent(
    t0: StringIntern,
    t1: StringIntern,
    t2: StringIntern,
    s: Seq<char>,
    a1: Atom,
    a2: Atom,
)
    requires
        t0.wf(),
        t1.wf(),
        t2.wf(),
        t1@ == after_intern(t0@, s),
        a1 < t1@.len(),
        t1@[a1 as int] == s,
        t2@ == after_intern(t1@, s),
        a2 < t2@.len(),
        t2@[a2 as int] == s,
    ensures
        a1 == a2,
        t2@ == t1@,
        t2@[a2 as int] == s,
{
    assert(t1@.contains(s));
    t2.lemma_distinct();
    assert(t2@[a1 as int] == s);
}

} // verus!
