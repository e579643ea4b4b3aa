//! The set of programs whose output is not logged.

use vstd::prelude::*;

verus! {

/// The texts of a list of strings.
pub open spec fn texts(list: Seq<String>) -> Seq<Seq<char>> {
    list.map_values(|s: String| s@)
}

/// A set of program names. A name is in the set or it is not: order and
/// repetition in the lists it was made from play no part.
pub struct IgnoreSet {
    names: Vec<String>,
}

impl View for IgnoreSet {
    type V = Set<Seq<char>>;

    closed spec fn view(&self) -> Set<Seq<char>> {
        texts(self.names@).to_set()
    }
}

/// Looks for `name` in `names`.
fn holds(names: &Vec<String>, name: &String) -> (found: bool)
    ensures
        found == texts(names@).contains(name@),
{
    let mut i: usize = 0;
    while i < names.len()
        invariant
            i <= names.len(),
            forall|k: int| 0 <= k < i ==> texts(names@)[k] != name@,
        decreases names.len() - i,
    {
        if names[i] == *name {
            assert(texts(names@)[i as int] == name@);
            return true;
        }
        i += 1;
    }
    false
}

/// Adds to `names` each string of `more` that it does not hold yet.
fn absorb(names: &mut Vec<String>, more: &Vec<String>)
    requires
        texts(old(names)@).no_duplicates(),
    ensures
        texts(final(names)@).no_duplicates(),
        texts(final(names)@).to_set() == texts(old(names)@).to_set().union(
            texts(more@).to_set(),
        ),
{
    let ghost start = texts(names@);
    let ghost added = texts(more@);
    let mut i: usize = 0;
    while i < more.len()
        invariant
            i <= more.len(),
            added == texts(more@),
            texts(names@).no_duplicates(),
            texts(names@).to_set() == start.to_set().union(added.take(i as int).to_set()),
        decreases more.len() - i,
    {
        let ghost held = texts(names@);
        proof {
            assert(added.take(i + 1) =~= added.take(i as int).push(added[i as int]));
            added.take(i as int).lemma_push_to_set_commute(added[i as int]);
        }
        if !holds(names, &more[i]) {
            names.push(more[i].clone());
            proof {
                assert(texts(names@) =~= held.push(added[i as int]));
                held.lemma_push_to_set_commute(added[i as int]);
            }
        }
        assert(texts(names@).to_set() =~= start.to_set().union(
            added.take(i + 1).to_set(),
        ));
        i += 1;
    }
    assert(added.take(i as int) =~= added);
}

impl IgnoreSet {
    /// No name is held twice.
    #[verifier::type_invariant]
    spec fn no_name_twice(&self) -> bool {
        texts(self.names@).no_duplicates()
    }

    /// The set of the names of both lists: those that are configured and
    /// those that the caller adds.
    pub fn merge(base: &Vec<String>, extra: &Vec<String>) -> (set: IgnoreSet)
        ensures
            set@ == texts(base@).to_set().union(texts(extra@).to_set()),
    {
        let mut names: Vec<String> = Vec::new();
        absorb(&mut names, base);
        absorb(&mut names, extra);
        IgnoreSet { names }
    }

    /// Whether `program` is in the set.
    pub fn contains(&self, program: &str) -> (found: bool)
        ensures
            found == self@.contains(program@),
    {
        let wanted = program.to_owned();
        holds(&self.names, &wanted)
    }

    /// The number of names in the set.
    pub fn len(&self) -> (n: usize)
        ensures
            n == self@.len(),
    {
        proof {
            use_type_invariant(self);
            texts(self.names@).unique_seq_to_set();
        }
        self.names.len()
    }
}

} // verus!
