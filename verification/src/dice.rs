//! The two dice.

use rand::rngs::ThreadRng;
use rand::Rng;
use vstd::prelude::*;
use vstd::string::StringExecFns;

verus! {

/// `rand::rngs::ThreadRng`, the random number generator of a thread. It is
/// carried along and handed to `gen_range`; nothing of it is looked into.
#[verifier::external_type_specification]
#[verifier::external_body]
pub struct ExThreadRng(ThreadRng);

/// `rand::thread_rng`, which hands out the generator of the calling thread.
/// Nothing is claimed of the generator.
pub assume_specification[ rand::thread_rng ]() -> (rng: ThreadRng);

/// `Rng::gen_range` of rand, called on a `ThreadRng` with `usize` bounds. Its
/// documentation gives the range of the value drawn, `low` included and `high`
/// not, and says that it panics unless `low < high`. Which value of the range
/// comes is not claimed.
#[verifier::external_body]
fn gen_range(rng: &mut ThreadRng, low: usize, high: usize) -> (value: usize)
    requires
        low < high,
    ensures
        low <= value < high,
{
    rng.gen_range(low, high)
}

/// The lowest face of a die.
pub const LOWEST_FACE: usize = 1;

/// The highest face of a die.
pub const HIGHEST_FACE: usize = 6;

/// `face` is a face of a die.
pub open spec fn is_face(face: usize) -> bool {
    LOWEST_FACE <= face <= HIGHEST_FACE
}

/// The glyph that shows `face`; a question mark for what is no face.
pub open spec fn face_glyph(face: usize) -> Seq<char> {
    if face == 1 {
        seq!['\u{2680}']
    } else if face == 2 {
        seq!['\u{2681}']
    } else if face == 3 {
        seq!['\u{2682}']
    } else if face == 4 {
        seq!['\u{2683}']
    } else if face == 5 {
        seq!['\u{2684}']
    } else if face == 6 {
        seq!['\u{2685}']
    } else {
        seq!['?']
    }
}

/// Two dice, rolled together.
pub struct Dice {
    rng: ThreadRng,
    /// The faces that lie up; both 0 before the first roll.
    pub values: (usize, usize),
}

impl View for Dice {
    type V = (usize, usize);

    /// The faces that lie up.
    closed spec fn view(&self) -> (usize, usize) {
        self.values
    }
}

impl Dice {
    /// Two dice that have not been rolled: both faces are 0.
    pub fn new() -> (dice: Dice)
        ensures
            dice@ == (0usize, 0usize),
    {
        Dice { rng: rand::thread_rng(), values: (0, 0) }
    }

    /// Rolls both dice.
    pub fn roll(&mut self)
        ensures
            is_face(final(self)@.0),
            is_face(final(self)@.1),
    {
        let first = gen_range(&mut self.rng, LOWEST_FACE, HIGHEST_FACE + 1);
        let second = gen_range(&mut self.rng, LOWEST_FACE, HIGHEST_FACE + 1);
        self.values = (first, second);
    }

    /// The sum of the two faces.
    pub fn result(&self) -> (sum: usize)
        requires
            self@.0 + self@.1 <= usize::MAX,
        ensures
            sum == self@.0 + self@.1,
    {
        self.values.0 + self.values.1
    }

    /// The two faces as glyphs, with a space between them.
    pub fn pprint(&self) -> (text: String)
        ensures
            text@ == face_glyph(self@.0) + seq![' '] + face_glyph(self@.1),
    {
        proof {
            reveal_strlit(" ");
        }
        let text = String::from_str(onedie(self.values.0));
        let text = text.concat(" ");
        let text = text.concat(onedie(self.values.1));
        assert(" "@ =~= seq![' ']);
        text
    }
}

/// The glyph that shows the face `val`.
fn onedie(val: usize) -> (glyph: &'static str)
    ensures
        glyph@ == face_glyph(val),
{
    proof {
        reveal_strlit("\u{2680}");
        reveal_strlit("\u{2681}");
        reveal_strlit("\u{2682}");
        reveal_strlit("\u{2683}");
        reveal_strlit("\u{2684}");
        reveal_strlit("\u{2685}");
        reveal_strlit("?");
    }
    let glyph = match val {
        1 => "\u{2680}",
        2 => "\u{2681}",
        3 => "\u{2682}",
        4 => "\u{2683}",
        5 => "\u{2684}",
        6 => "\u{2685}",
        _ => "?",
    };
    assert(glyph@ =~= face_glyph(val));
    glyph
}

} // verus!
