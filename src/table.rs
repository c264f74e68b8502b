//! The lookup table: variable names mapped to replacement values.
use vstd::prelude::*;
use crate::text::{chars_of, same_chars};

verus! {

/// A mapping from variable names to values; keys are unique and
/// case-sensitive, and the order of insertion does not matter.
pub struct VarTable {
    keys: Vec<Vec<char>>,
    values: Vec<String>,
    contents: Ghost<Map<Seq<char>, Seq<char>>>,
}

impl View for VarTable {
    type V = Map<Seq<char>, Seq<char>>;

    closed spec fn view(&self) -> Map<Seq<char>, Seq<char>> {
        self.contents@
    }
}

impl VarTable {
    /// The entries line up with the map: one entry per key, none repeated.
    pub closed spec fn wf(&self) -> bool {
        &&& self.keys@.len() == self.values@.len()
        &&& forall|i: int, j: int|
            0 <= i < j < self.keys@.len() ==> #[trigger] self.keys@[i]@ != #[trigger] self.keys@[j]@
        &&& forall|i: int|
            0 <= i < self.keys@.len() ==> self.contents@.contains_key(#[trigger] self.keys@[i]@)
                && self.contents@[self.keys@[i]@] == self.values@[i]@
        &&& forall|k: Seq<char>|
            #[trigger] self.contents@.contains_key(k) ==> exists|i: int|
                0 <= i < self.keys@.len() && #[trigger] self.keys@[i]@ == k
    }

    /// An empty table.
    pub fn new() -> (r: VarTable)
        ensures
            r.wf(),
            r@ == Map::<Seq<char>, Seq<char>>::empty(),
    {
        VarTable { keys: Vec::new(), values: Vec::new(), contents: Ghost(Map::empty()) }
    }

    /// Where `name` stands among the entries, if it is a key.
    fn position(&self, name: &Vec<char>) -> (r: Option<usize>)
        requires
            self.wf(),
        ensures
            match r {
                Some(i) => i < self.keys@.len() && self.keys@[i as int]@ == name@,
                None => !self@.contains_key(name@),
            },
    {
        let mut i: usize = 0;
        while i < self.keys.len()
            invariant
                self.wf(),
                i <= self.keys@.len(),
                forall|j: int| 0 <= j < i ==> self.keys@[j]@ != name@,
            decreases self.keys@.len() - i,
        {
            if same_chars(&self.keys[i], name) {
                return Some(i);
            }
            i = i + 1;
        }
        None
    }

    /// The value of `name`, if it is a key.
    pub(crate) fn get(&self, name: &Vec<char>) -> (r: Option<&String>)
        requires
            self.wf(),
        ensures
            r is Some <==> self@.contains_key(name@),
            r is Some ==> r->0@ == self@[name@],
    {
        match self.position(name) {
            Some(i) => Some(&self.values[i]),
            None => None,
        }
    }

    /// Sets `key` to `value`, replacing the value it had.
    pub fn insert(&mut self, key: &str, value: &str)
        requires
            old(self).wf(),
        ensures
            final(self).wf(),
            final(self)@ == old(self)@.insert(key@, value@),
    {
        let k = chars_of(key);
        let v = value.to_owned();
        match self.position(&k) {
            Some(i) => {
                self.values.set(i, v);
                self.contents = Ghost(self.contents@.insert(k@, value@));
                assert forall|j: int| 0 <= j < self.keys@.len() implies self.contents@.contains_key(
                    #[trigger] self.keys@[j]@,
                ) && self.contents@[self.keys@[j]@] == self.values@[j]@ by {
                    if j != i {
                        assert(self.keys@[j]@ != self.keys@[i as int]@);
                    }
                }
                assert forall|q: Seq<char>| #[trigger] self.contents@.contains_key(q) implies exists|
                    j: int,
                | 0 <= j < self.keys@.len() && #[trigger] self.keys@[j]@ == q by {
                    if q == k@ {
                        assert(self.keys@[i as int]@ == q);
                    } else {
                        assert(old(self).contents@.contains_key(q));
                        let j = choose|j: int| 0 <= j < old(self).keys@.len() && #[trigger] old(self).keys@[j]@ == q;
                        assert(self.keys@[j]@ == q);
                    }
                }
            },
            None => {
                let ghost n = self.keys@.len();
                self.keys.push(k);
                self.values.push(v);
                self.contents = Ghost(self.contents@.insert(key@, value@));
                assert(self.keys@[n as int]@ == key@);
                assert forall|q: Seq<char>| #[trigger] self.contents@.contains_key(q) implies exists|
                    j: int,
                | 0 <= j < self.keys@.len() && #[trigger] self.keys@[j]@ == q by {
                    if q == key@ {
                        assert(self.keys@[n as int]@ == q);
                    } else {
                        assert(old(self).contents@.contains_key(q));
                        let j = choose|j: int| 0 <= j < old(self).keys@.len() && #[trigger] old(self).keys@[j]@ == q;
                        assert(self.keys@[j]@ == q);
                    }
                }
            },
        }
    }
}

} // verus!
