//! A found path written for a terminal: every suffix in a colour of its own.

use vstd::prelude::*;
use vstd::string::*;
use crate::keyword::keyword;
use crate::format::{rgb_ansi, rgb_code};
use crate::search::SearchStep;

verus! {

/// The escape sequence that ends a colour.
pub open spec fn reset_code() -> Seq<char> {
    "\x1b[0m"@
}

/// The colour of the suffix that starts at rank `i`: the rainbow from red
/// for the whole keyword to violet for its last letter alone.
pub open spec fn chunk_colour(i: int) -> Seq<char> {
    if i == 0 {
        rgb_code(255, 0, 0)
    } else if i == 1 {
        rgb_code(255, 165, 0)
    } else if i == 2 {
        rgb_code(255, 255, 0)
    } else if i == 3 {
        rgb_code(0, 128, 0)
    } else if i == 4 {
        rgb_code(0, 0, 255)
    } else if i == 5 {
        rgb_code(75, 0, 130)
    } else if i == 6 {
        rgb_code(238, 130, 238)
    } else {
        Seq::empty()
    }
}

/// The letters of rank `from` up to `upto`, each one behind `colour` and
/// before a reset.
pub open spec fn painted(colour: Seq<char>, from: int, upto: int) -> Seq<char>
    decreases upto - from,
{
    if upto <= from {
        Seq::empty()
    } else {
        painted(colour, from, upto - 1) + colour + seq![keyword()[upto - 1]] + reset_code()
    }
}

/// The suffixes `cs`, one after another, each painted in its colour.
pub open spec fn pretty_chunks(cs: Seq<int>) -> Seq<char>
    decreases cs.len(),
{
    if cs.len() == 0 {
        Seq::empty()
    } else {
        pretty_chunks(cs.drop_last()) + painted(chunk_colour(cs.last()), cs.last(), 7)
    }
}

/// The colour of the suffix that starts at rank `i`.
pub fn colour_of(i: u8) -> (r: String)
    ensures
        r@ == chunk_colour(i as int),
{
    match i {
        0 => rgb_ansi(255, 0, 0),
        1 => rgb_ansi(255, 165, 0),
        2 => rgb_ansi(255, 255, 0),
        3 => rgb_ansi(0, 128, 0),
        4 => rgb_ansi(0, 0, 255),
        5 => rgb_ansi(75, 0, 130),
        6 => rgb_ansi(238, 130, 238),
        _ => String::new(),
    }
}

impl<'arena> SearchStep<'arena> {
    /// The painted suffixes from the start node to this node.
    fn painted_path(&self) -> (r: String)
        requires
            self.wf(),
        ensures
            r@ == pretty_chunks(self.chunks()),
        decreases self,
    {
        match self.previous {
            None => String::new(),
            Some(node) => {
                let mut r = node.painted_path();
                let colour = colour_of(self.suffix);
                let ghost before = r@;
                let mut k: usize = self.suffix as usize;
                proof {
                    reveal_strlit("GEOLYMP");
                    assert("GEOLYMP"@ =~= keyword());
                    assert(self.chunks().drop_last() =~= node.chunks());
                }
                while k < 7
                    invariant
                        self.suffix <= k <= 7,
                        "GEOLYMP"@ == keyword(),
                        colour@ == chunk_colour(self.suffix as int),
                        r@ == before + painted(colour@, self.suffix as int, k as int),
                    decreases 7 - k,
                {
                    r.append(colour.as_str());
                    r.append("GEOLYMP".substring_char(k, k + 1));
                    r.append("\x1b[0m");
                    k += 1;
                    assert(r@ =~= before + painted(colour@, self.suffix as int, k as int)) by {
                        assert("GEOLYMP"@.subrange(k - 1, k as int) =~= seq![keyword()[k - 1]]);
                    }
                }
                r
            },
        }
    }

    /// Writes the path for a terminal: the suffixes from the start node to
    /// this node, every letter in the colour of the suffix it belongs to,
    /// and a last reset.
    pub fn to_pretty_string(&self) -> (r: String)
        requires
            self.wf(),
        ensures
            r@ == pretty_chunks(self.chunks()) + reset_code(),
    {
        let mut r = self.painted_path();
        r.append("\x1b[0m");
        r
    }
}

} // verus!
