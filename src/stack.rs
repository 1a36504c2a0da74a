use vstd::prelude::*;

verus! {

/// Display colour of a peg or a ring; it plays no part in the rules.
#[derive(Clone, Copy, Debug, PartialEq, Eq, Structural)]
pub enum Color {
    Red,
    Green,
    Yellow,
    Blue,
    BrightGreen,
    White,
}

/// Why a single ring move was refused.
#[derive(Clone, Copy, Debug, PartialEq, Eq, Structural)]
pub enum MoveError {
    /// The source peg holds no ring.
    EmptySource,
    /// The source's top ring is larger than the target's top ring.
    IllegalPlacement,
}

/// A named peg; `rings` runs from the bottom ring to the top one.
pub struct Stack {
    pub rings: Vec<usize>,
    pub color: Color,
    pub name: String,
}

/// Every ring is strictly smaller than the ring beneath it.
pub open spec fn descending(rings: Seq<usize>) -> bool {
    forall|i: int, j: int| 0 <= i < j < rings.len() ==> rings[i] > rings[j]
}

/// The tower `size, size - 1, ..., 1`, bottom to top.
pub open spec fn full_tower(size: nat) -> Seq<usize> {
    Seq::new(size, |i: int| (size - i) as usize)
}

/// What moving the top ring of `source` onto `target` gives: the two new ring
/// sequences, or the reason the move is refused.
pub open spec fn move_outcome(source: Seq<usize>, target: Seq<usize>) -> Result<
    (Seq<usize>, Seq<usize>),
    MoveError,
> {
    if source.len() == 0 {
        Err(MoveError::EmptySource)
    } else if target.len() > 0 && source.last() > target.last() {
        Err(MoveError::IllegalPlacement)
    } else {
        Ok((source.drop_last(), target.push(source.last())))
    }
}

/// A legal move keeps both pegs strictly descending.
pub proof fn lemma_move_keeps_descending(source: Seq<usize>, target: Seq<usize>)
    requires
        descending(source),
        descending(target),
        move_outcome(source, target) is Ok,
        target.len() > 0 ==> source.last() != target.last(),
    ensures
        descending(move_outcome(source, target)->Ok_0.0),
        descending(move_outcome(source, target)->Ok_0.1),
{
    let (s2, t2) = move_outcome(source, target)->Ok_0;
    assert forall|i: int, j: int| 0 <= i < j < t2.len() implies t2[i] > t2[j] by {
        if j == t2.len() - 1 && i < target.len() - 1 {
            assert(target[i] > target.last());
        }
    }
}

impl Stack {
    /// A peg holding `rings`, bottom to top, as given.
    pub fn new(name: &str, rings: Vec<usize>, color: Color) -> (r: Self)
        ensures
            r.name@ == name@,
            r.rings@ == rings@,
            r.color == color,
    {
        Self { rings, color, name: name.to_owned() }
    }

    /// A peg holding the full tower of `size` rings.
    pub fn new_of_size(name: &str, size: usize, color: Color) -> (r: Self)
        ensures
            r.name@ == name@,
            r.rings@ == full_tower(size as nat),
            descending(r.rings@),
            r.color == color,
    {
        let mut rings: Vec<usize> = Vec::new();
        let mut ring: usize = size;
        while ring > 0
            invariant
                ring <= size,
                rings@.len() == size - ring,
                forall|i: int| 0 <= i < rings@.len() ==> rings@[i] == size - i,
            decreases ring,
        {
            rings.push(ring);
            ring = ring - 1;
        }
        assert(rings@ =~= full_tower(size as nat));
        Self { rings, color, name: name.to_owned() }
    }

    /// Moves the top ring of `self` onto `target`; on refusal both pegs are
    /// left as they were.
    pub fn move_ring(&mut self, target: &mut Stack) -> (r: Result<(), MoveError>)
        ensures
            final(self).name == old(self).name,
            final(self).color == old(self).color,
            final(target).name == old(target).name,
            final(target).color == old(target).color,
            match move_outcome(old(self).rings@, old(target).rings@) {
                Ok((s, t)) => r is Ok && final(self).rings@ == s && final(target).rings@ == t,
                Err(e) => r == Err::<(), MoveError>(e) && final(self).rings@ == old(self).rings@
                    && final(target).rings@ == old(target).rings@,
            },
    {
        if self.rings.len() == 0 {
            return Err(MoveError::EmptySource);
        }
        let top = self.rings[self.rings.len() - 1];
        if target.rings.len() > 0 && top > target.rings[target.rings.len() - 1] {
            return Err(MoveError::IllegalPlacement);
        }
        let ring = self.rings.pop().unwrap();
        target.rings.push(ring);
        Ok(())
    }
}

} // verus!
