//! How a material lays its texture over a surface: stretched once, or repeated
//! step by step with an operation applied at each step.
//!
//! Atlas cells and steps are generic: the library only picks among them.

use vstd::prelude::*;
use rand::Rng;

verus! {

/// A number drawn by `rand::thread_rng().gen_range(0..n)`: below `n`. Which one
/// is left to chance; the range is never empty.
#[verifier::external_body]
fn random_below(n: usize) -> (r: usize)
    requires
        n > 0,
    ensures
        r < n,
{
    rand::thread_rng().gen_range(0..n)
}

/// What a repeated material does at each step.
#[derive(Clone, Debug, PartialEq)]
pub enum RepeatOp<A> {
    /// Show one of these atlas cells, drawn at random.
    AtlasRandom(Vec<A>),
    /// Nothing.
    Identity,
    /// Turn by this many quarter turns per step along the grid's diagonal.
    Rotate { quarters: i32 },
    /// Turn by a random multiple, up to three, of this many quarter turns.
    RotateRandom { quarters: i32 },
}

impl<A> RepeatOp<A> {
    /// The arithmetic of the turn at step `(x, y)` stays within `i32`, whatever
    /// the random multiple.
    pub open spec fn fits(self, x: i32, y: i32) -> bool {
        match self {
            RepeatOp::Rotate { quarters } => i32::MIN <= x + y <= i32::MAX && i32::MIN <= (x + y)
                * quarters <= i32::MAX,
            RepeatOp::RotateRandom { quarters } => i32::MIN <= 3 * quarters <= i32::MAX,
            _ => true,
        }
    }

    /// The quarter turns, in `0..4`, at step `(x, y)` when the random multiple is
    /// `roll`.
    pub open spec fn turns(self, x: i32, y: i32, roll: int) -> int {
        match self {
            RepeatOp::Rotate { quarters } => ((x + y) * quarters) % 4,
            RepeatOp::RotateRandom { quarters } => (roll * quarters) % 4,
            _ => 0,
        }
    }

    /// The quarter turns at step `(x, y)` when the random multiple is `roll`.
    pub fn quarter_turns_with(&self, x: i32, y: i32, roll: i32) -> (r: i32)
        requires
            self.fits(x, y),
            0 <= roll < 4,
        ensures
            r == self.turns(x, y, roll as int),
            0 <= r < 4,
    {
        let v: i32 = match self {
            RepeatOp::Rotate { quarters } => (x + y) * *quarters,
            RepeatOp::RotateRandom { quarters } => {
                let q: i32 = *quarters;
                assert(i32::MIN <= roll * q <= i32::MAX) by (nonlinear_arith)
                    requires
                        0 <= roll < 4,
                        i32::MIN <= 3 * q <= i32::MAX,
                ;
                roll * q
            },
            _ => 0,
        };
        let m = v % 4;
        if m < 0 {
            m + 4
        } else {
            m
        }
    }

    /// The quarter turns at step `(x, y)`; a random turn draws its multiple.
    pub fn quarter_turns(&self, x: i32, y: i32) -> (r: i32)
        requires
            self.fits(x, y),
        ensures
            0 <= r < 4,
            self is RotateRandom ==> exists|roll: int| 0 <= roll < 4 && r == self.turns(x, y, roll),
            !(self is RotateRandom) ==> r == self.turns(x, y, 0),
    {
        let roll: i32 = match self {
            RepeatOp::RotateRandom { .. } => {
                let d = random_below(4);
                d as i32
            },
            _ => 0,
        };
        self.quarter_turns_with(x, y, roll)
    }
}

/// The atlas cells of the first operation that draws from a non-empty list of
/// them.
pub open spec fn first_atlas<A>(ops: Seq<RepeatOp<A>>) -> Option<Seq<A>>
    decreases ops.len(),
{
    if ops.len() == 0 {
        None
    } else {
        match ops[0] {
            RepeatOp::AtlasRandom(cells) => if cells@.len() > 0 {
                Some(cells@)
            } else {
                first_atlas(ops.drop_first())
            },
            _ => first_atlas(ops.drop_first()),
        }
    }
}

/// The turn at a step is a whole number of quarter turns below a full turn, and
/// differs from the turn the operation asks for there by whole turns: a fixed turn
/// asks for `quarters` per step along the diagonal, a random one for `roll` times
/// `quarters`, the others for none.
pub proof fn lemma_turns_reduce<A>(op: RepeatOp<A>, x: i32, y: i32, roll: int)
    ensures
        0 <= op.turns(x, y, roll) < 4,
        ({
            let asked = match op {
                RepeatOp::Rotate { quarters } => (x + y) * quarters,
                RepeatOp::RotateRandom { quarters } => roll * quarters,
                _ => 0,
            };
            (asked - op.turns(x, y, roll)) % 4 == 0
        }),
{
    let asked = match op {
        RepeatOp::Rotate { quarters } => (x + y) * quarters,
        RepeatOp::RotateRandom { quarters } => roll * quarters,
        _ => 0,
    };
    assert((asked - asked % 4) % 4 == 0) by (nonlinear_arith);
}

/// Operations that draw from no atlas cells, ahead of the others, do not change
/// which cells a material draws from.
pub proof fn lemma_first_atlas_skips<A>(prefix: Seq<RepeatOp<A>>, rest: Seq<RepeatOp<A>>)
    requires
        forall|j: int| 0 <= j < prefix.len() ==> !(#[trigger] prefix[j] matches RepeatOp::AtlasRandom(cells) && cells@.len() > 0),
    ensures
        first_atlas(prefix + rest) == first_atlas(rest),
    decreases prefix.len(),
{
    if prefix.len() > 0 {
        let tail = prefix.drop_first();
        assert forall|j: int| 0 <= j < tail.len() implies !(#[trigger] tail[j] matches RepeatOp::AtlasRandom(cells) && cells@.len() > 0) by {
            assert(tail[j] == prefix[j + 1]);
        }
        lemma_first_atlas_skips(tail, rest);
        assert((prefix + rest).drop_first() =~= tail + rest);
        assert((prefix + rest)[0] == prefix[0]);
    } else {
        assert(prefix + rest =~= rest);
    }
}

/// An operation drawing from a non-empty list of cells, ahead of the others, is
/// the one a material draws from.
pub proof fn lemma_first_atlas_front<A>(cells: Vec<A>, rest: Seq<RepeatOp<A>>)
    requires
        cells@.len() > 0,
    ensures
        first_atlas(seq![RepeatOp::AtlasRandom(cells)] + rest) == Some(cells@),
{
    let ops = seq![RepeatOp::AtlasRandom(cells)] + rest;
    assert(ops[0] == RepeatOp::AtlasRandom(cells));
}

/// The cells found by `first_atlas` are never an empty list.
proof fn lemma_first_atlas_nonempty<A>(ops: Seq<RepeatOp<A>>)
    ensures
        first_atlas(ops) matches Some(cells) ==> cells.len() > 0,
    decreases ops.len(),
{
    if ops.len() > 0 {
        lemma_first_atlas_nonempty(ops.drop_first());
    }
}

/// How a material lays its texture over a surface.
#[derive(Clone, Debug, PartialEq)]
pub enum MaterialMode<S, A> {
    /// Once, stretched over the whole surface.
    Stretch,
    /// Repeated every `step`, with the operations applied at each repetition.
    Repeat { step: S, on_step: Vec<RepeatOp<A>> },
}

impl<S, A> Default for MaterialMode<S, A> {
    fn default() -> (m: MaterialMode<S, A>)
        ensures
            m is Stretch,
    {
        MaterialMode::Stretch
    }
}

impl<S, A: Copy> MaterialMode<S, A> {
    /// The atlas cells this material draws from, if it draws any.
    pub open spec fn atlas_choices(self) -> Option<Seq<A>> {
        match self {
            MaterialMode::Stretch => None,
            MaterialMode::Repeat { step: _, on_step } => first_atlas(on_step@),
        }
    }

    /// The atlas cells this material draws from: those of its first operation
    /// with a non-empty list.
    pub fn atlas_cells(&self) -> (r: Option<&Vec<A>>)
        ensures
            match r {
                Some(cells) => self.atlas_choices() == Some(cells@),
                None => self.atlas_choices() is None,
            },
    {
        match self {
            MaterialMode::Stretch => None,
            MaterialMode::Repeat { step: _, on_step } => {
                let mut i: usize = 0;
                assert(on_step@.skip(0) =~= on_step@);
                while i < on_step.len()
                    invariant
                        i <= on_step@.len(),
                        self.atlas_choices() == first_atlas(on_step@),
                        first_atlas(on_step@) == first_atlas(on_step@.skip(i as int)),
                    decreases on_step@.len() - i,
                {
                    assert(on_step@.skip(i as int).drop_first() =~= on_step@.skip(i + 1));
                    assert(on_step@.skip(i as int)[0] == on_step@[i as int]);
                    match &on_step[i] {
                        RepeatOp::AtlasRandom(cells) => {
                            if cells.len() > 0 {
                                return Some(cells);
                            }
                        },
                        _ => {},
                    }
                    i = i + 1;
                }
                assert(on_step@.skip(i as int).len() == 0);
                None
            },
        }
    }

    /// The atlas cell for one repetition when the draw picked position `pick`
    /// among the cells the material draws from, or `def` when it draws none.
    pub fn atlas_index_with(&self, def: A, pick: usize) -> (r: A)
        requires
            self.atlas_choices() matches Some(cells) ==> pick < cells.len(),
        ensures
            r == match self.atlas_choices() {
                None => def,
                Some(cells) => cells[pick as int],
            },
    {
        match self.atlas_cells() {
            None => def,
            Some(cells) => cells[pick],
        }
    }

    /// The atlas cell for one repetition: one of the cells the material draws
    /// from, at random, or `def` when it draws none.
    pub fn atlas_index(&self, def: A) -> (r: A)
        ensures
            match self.atlas_choices() {
                None => r == def,
                Some(cells) => exists|i: int| 0 <= i < cells.len() && r == cells[i],
            },
    {
        match self.atlas_cells() {
            None => def,
            Some(cells) => {
                proof {
                    if let MaterialMode::Repeat { step: _, on_step } = self {
                        lemma_first_atlas_nonempty(on_step@);
                    }
                }
                let i = random_below(cells.len());
                self.atlas_index_with(def, i)
            },
        }
    }
}

} // verus!
