//! Traversal: applying to each item of a collection an effect that may fail,
//! and turning the collection of outcomes into one outcome for the whole.
use vstd::prelude::*;

verus! {

/// The first characters of the names, one for each name in order.
pub open spec fn initials(names: Seq<&str>) -> Seq<char> {
    Seq::new(names.len(), |i: int| names[i]@[0])
}

/// Whether every one of the names has a first character.
pub open spec fn all_named(names: Seq<&str>) -> bool {
    forall|i: int| 0 <= i < names.len() ==> (#[trigger] names[i])@.len() > 0
}

/// The first character of each name, or `None` as soon as one name is empty.
pub fn collect_initials(names: Vec<&str>) -> (collected: Option<Vec<char>>)
    ensures
        all_named(names@) ==> collected.is_some() && collected.unwrap()@ == initials(names@),
        !all_named(names@) ==> collected.is_none(),
{
    let mut letters: Vec<char> = Vec::new();
    let mut i: usize = 0;
    while i < names.len()
        invariant
            i <= names.len(),
            letters@.len() == i,
            forall|j: int| 0 <= j < i ==> (#[trigger] names@[j])@.len() > 0,
            forall|j: int| 0 <= j < i ==> letters@[j] == (#[trigger] names@[j])@[0],
        decreases names.len() - i,
    {
        match first(names[i]) {
            Some(letter) => letters.push(letter),
            None => {
                return None;
            },
        }
        i = i + 1;
    }
    proof {
        assert(letters@ =~= initials(names@));
    }
    Some(letters)
}

/// The first character of `input`, if it has one.
pub fn first(input: &str) -> (letter: Option<char>)
    ensures
        input@.len() > 0 ==> letter == Some(input@[0]),
        input@.len() == 0 ==> letter.is_none(),
{
    broadcast use vstd::string::axiom_spec_iter;
    broadcast use vstd::string::next_postcondition;

    let mut letters = input.chars();
    letters.next()
}

} // verus!
