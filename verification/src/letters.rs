//! Cumulative record of the letters seen across a session: which letters
//! were typed at all, which were confirmed in the right position (green),
//! and which were confirmed present but misplaced (yellow). Each set only
//! ever grows.

use vstd::prelude::*;

use crate::text::vec_contains_char;

verus! {

/// Three cumulative letter sets, stored as duplicate-free vectors and
/// viewed as mathematical sets of characters.
pub struct Letters {
    used: Vec<char>,
    green: Vec<char>,
    yellow: Vec<char>,
}

impl Letters {
    /// The set of letters that appeared in any submitted guess.
    pub closed spec fn used_set(&self) -> Set<char> {
        self.used@.to_set()
    }

    /// The set of letters confirmed in a correct position by some guess.
    pub closed spec fn green_set(&self) -> Set<char> {
        self.green@.to_set()
    }

    /// The set of letters confirmed present but misplaced by some guess.
    pub closed spec fn yellow_set(&self) -> Set<char> {
        self.yellow@.to_set()
    }

    /// Each backing vector holds every letter at most once.
    pub closed spec fn wf(&self) -> bool {
        &&& self.used@.no_duplicates()
        &&& self.green@.no_duplicates()
        &&& self.yellow@.no_duplicates()
    }

    pub fn new() -> (r: Letters)
        ensures
            r.wf(),
            r.used_set() == Set::<char>::empty(),
            r.green_set() == Set::<char>::empty(),
            r.yellow_set() == Set::<char>::empty(),
    {
        let r = Letters { used: Vec::new(), green: Vec::new(), yellow: Vec::new() };
        proof {
            assert(r.used_set() =~= Set::<char>::empty());
            assert(r.green_set() =~= Set::<char>::empty());
            assert(r.yellow_set() =~= Set::<char>::empty());
        }
        r
    }

    pub fn add_used_letter(&mut self, letter: char)
        requires
            old(self).wf(),
        ensures
            final(self).wf(),
            final(self).used_set() == old(self).used_set().insert(letter),
            final(self).green_set() == old(self).green_set(),
            final(self).yellow_set() == old(self).yellow_set(),
    {
        insert_unique(&mut self.used, letter);
    }

    pub fn add_green_letter(&mut self, letter: char)
        requires
            old(self).wf(),
        ensures
            final(self).wf(),
            final(self).green_set() == old(self).green_set().insert(letter),
            final(self).used_set() == old(self).used_set(),
            final(self).yellow_set() == old(self).yellow_set(),
    {
        insert_unique(&mut self.green, letter);
    }

    pub fn add_yellow_letter(&mut self, letter: char)
        requires
            old(self).wf(),
        ensures
            final(self).wf(),
            final(self).yellow_set() == old(self).yellow_set().insert(letter),
            final(self).used_set() == old(self).used_set(),
            final(self).green_set() == old(self).green_set(),
    {
        insert_unique(&mut self.yellow, letter);
    }

    pub fn get_used_letters(&self) -> (r: &Vec<char>)
        ensures
            r@.to_set() == self.used_set(),
            self.wf() ==> r@.no_duplicates(),
    {
        &self.used
    }

    pub fn get_green_letters(&self) -> (r: &Vec<char>)
        ensures
            r@.to_set() == self.green_set(),
            self.wf() ==> r@.no_duplicates(),
    {
        &self.green
    }

    pub fn get_yellow_letters(&self) -> (r: &Vec<char>)
        ensures
            r@.to_set() == self.yellow_set(),
            self.wf() ==> r@.no_duplicates(),
    {
        &self.yellow
    }
}

/// Appends `c` unless it is already present, so that the vector stays
/// duplicate-free while its set of elements gains `c`.
fn insert_unique(v: &mut Vec<char>, c: char)
    requires
        old(v)@.no_duplicates(),
    ensures
        final(v)@.no_duplicates(),
        final(v)@.to_set() == old(v)@.to_set().insert(c),
{
    if !vec_contains_char(v, c) {
        v.push(c);
        proof {
            assert(v@.drop_last() == old(v)@);
            assert(v@.to_set() =~= old(v)@.to_set().insert(c)) by {
                assert(forall|x: char| old(v)@.contains(x) ==> #[trigger] v@.contains(x)) by {
                    assert(forall|j: int|
                        0 <= j < old(v)@.len() ==> v@[j] == #[trigger] old(v)@[j]);
                }
                assert(v@.contains(c)) by {
                    assert(v@[v@.len() - 1] == c);
                }
                assert(forall|x: char| #[trigger] v@.contains(x) && x != c ==> old(v)@.contains(x))
                    by {
                    assert forall|x: char| #[trigger] v@.contains(x) && x != c implies old(
                        v,
                    )@.contains(x) by {
                        let j = choose|j: int| 0 <= j < v@.len() && v@[j] == x;
                        assert(j < v@.len() - 1);
                        assert(old(v)@[j] == x);
                    }
                }
            }
        }
    } else {
        proof {
            assert(v@.to_set() =~= v@.to_set().insert(c));
        }
    }
}

} // verus!
