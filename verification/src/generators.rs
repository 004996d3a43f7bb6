//! The algorithms that carve a maze, and what they report while they work.

pub mod ellers;
pub mod recursive_division;

use crate::graph::forest;
use crate::lattice::Offset;
use crate::maze::Maze;
use rand::rngs::ThreadRng;
use vstd::prelude::*;
use vstd::string::*;

verus! {

/// A number that tunes a generator, with the range that a maze allows for it.
#[derive(Clone, Copy, Debug)]
pub struct GeneratorOption {
    pub min: usize,
    pub default: usize,
    pub max: usize,
    pub name: &'static str,
}

/// The value chosen for the option of that name.
#[derive(Clone, Copy, Debug)]
pub struct OptionValue {
    pub name: &'static str,
    pub value: usize,
}

/// One change that a generator reports.
///
/// `Connect` and `Disconnect` change the walls between two cells; `Primary`,
/// `Secondary` and `Normal` say how a cell is to be shown; `Finished` says
/// that the maze is complete.
#[derive(Clone, Copy, Debug, PartialEq, Eq, Structural)]
pub enum GeneratorUpdate {
    Connect(Offset, Offset),
    Disconnect(Offset, Offset),
    Primary(Offset),
    Secondary(Offset),
    Normal(Offset),
    Finished(),
}

/// The passages that `updates` open, in their order.
pub open spec fn connects_of(updates: Seq<GeneratorUpdate>) -> Seq<(Offset, Offset)>
    decreases updates.len(),
{
    if updates.len() == 0 {
        Seq::empty()
    } else {
        match updates.last() {
            GeneratorUpdate::Connect(a, b) => connects_of(updates.drop_last()).push((a, b)),
            _ => connects_of(updates.drop_last()),
        }
    }
}

/// The value that `values` give to the option called `name`: that of the
/// first entry of that name.
pub open spec fn chosen(values: Seq<OptionValue>, name: Seq<char>) -> Option<usize>
    decreases values.len(),
{
    if values.len() == 0 {
        None
    } else if values[0].name@ == name {
        Some(values[0].value)
    } else {
        chosen(values.drop_first(), name)
    }
}

/// Looks up the value chosen for the option called `name`.
pub fn option_value(values: &Vec<OptionValue>, name: &str) -> (value: Option<usize>)
    ensures
        value == chosen(values@, name@),
{
    let wanted = String::from_str(name);
    let mut i: usize = 0;
    assert(values@.subrange(0, values@.len() as int) =~= values@);
    while i < values.len()
        invariant
            i <= values@.len(),
            wanted@ == name@,
            chosen(values@, name@) == chosen(values@.subrange(i as int, values@.len() as int), name@),
        decreases values@.len() - i,
    {
        let ghost rest = values@.subrange(i as int, values@.len() as int);
        let here = String::from_str(values[i].name);
        if here == wanted {
            assert(rest[0] == values@[i as int]);
            return Some(values[i].value);
        }
        assert(rest.drop_first() =~= values@.subrange(i + 1, values@.len() as int));
        i = i + 1;
    }
    None
}

/// Whether `updates` hold no `Disconnect`, and `Finished` at the end only.
pub open spec fn orderly(updates: Seq<GeneratorUpdate>) -> bool {
    &&& forall|k: int| 0 <= k < updates.len() ==> !(#[trigger] updates[k] is Disconnect)
    &&& forall|k: int| 0 <= k < updates.len() - 1 ==> !(#[trigger] updates[k] is Finished)
}

/// The passages of two runs of updates are those of the first, then those
/// of the second.
pub proof fn lemma_connects_of_both(first: Seq<GeneratorUpdate>, second: Seq<GeneratorUpdate>)
    ensures
        connects_of(first + second) == connects_of(first) + connects_of(second),
    decreases second.len(),
{
    if second.len() == 0 {
        assert(first + second =~= first);
        assert(connects_of(first) + connects_of(second) =~= connects_of(first));
    } else {
        let whole = first + second;
        assert(whole.drop_last() =~= first + second.drop_last());
        assert(whole.last() == second.last());
        lemma_connects_of_both(first, second.drop_last());
        match second.last() {
            GeneratorUpdate::Connect(a, b) => {
                assert(connects_of(whole) =~= connects_of(first) + connects_of(second));
            },
            _ => {},
        }
    }
}

/// An algorithm that carves a maze step by step.
pub trait Generator: Sized {
    /// What holds of the generator between two steps on `maze`.
    spec fn ready(&self, maze: &Maze) -> bool;

    /// Whether the generator has reported that the maze is complete.
    spec fn finished(&self) -> bool;

    /// The passages that the generator has opened so far.
    spec fn carved(&self) -> Seq<(Offset, Offset)>;

    /// Whether `values` give every option of the generator a value that
    /// `maze` allows.
    spec fn accepts(maze: &Maze, values: Seq<OptionValue>) -> bool;

    /// What one step on `maze` does: it leads from `self` to `after` and
    /// reports `updates`.
    spec fn moved(&self, maze: &Maze, after: &Self, updates: Seq<GeneratorUpdate>) -> bool;

    /// Sets the generator up for `maze`. The maze stays as it is.
    fn init(maze: &Maze, rng: ThreadRng, values: &Vec<OptionValue>) -> (generator: Self)
        requires
            maze.wf(),
            Self::accepts(maze, values@),
        ensures
            generator.ready(maze),
            generator.carved() == Seq::<(Offset, Offset)>::empty(),
    ;

    /// Does one unit of work and reports every change that it made.
    ///
    /// The passages opened never close a cycle. Once `Finished` has been
    /// reported, every further step reports `Finished` and nothing else.
    fn step(&mut self, maze: &Maze) -> (updates: Vec<GeneratorUpdate>)
        requires
            maze.wf(),
            old(self).ready(maze),
        ensures
            old(self).moved(maze, final(self), updates@),
            final(self).ready(maze),
            final(self).carved() == old(self).carved() + connects_of(updates@),
            forest(final(self).carved()),
            orderly(updates@),
            updates@.len() > 0,
            final(self).finished() <==> updates@.last() is Finished,
            old(self).finished() ==> updates@ == seq![GeneratorUpdate::Finished()],
    ;

    /// The options of the generator, with the ranges that `maze` allows.
    fn options(maze: &Maze) -> (options: Vec<GeneratorOption>)
    ;

    /// Being ready does not depend on the walls of the maze: a generator
    /// that is ready for a maze is ready for every maze that is alike.
    proof fn lemma_ready_alike(&self, maze: &Maze, other: &Maze)
        requires
            self.ready(maze),
            maze.wf(),
            other.wf(),
            maze.alike(*other),
        ensures
            self.ready(other),
    ;
}

} // verus!
