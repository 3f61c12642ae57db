//! The mutation engine: single-character edits of a candidate string.
//!
//! Each edit exists twice. The deterministic form takes the positions and
//! the character as arguments and says exactly what comes back; the random
//! form draws them and says what holds of every draw.
use crate::random::all_alphanumeric;
use crate::random::all_printable;
use crate::random::alphanumeric;
use crate::random::coin;
use crate::random::is_printable;
use crate::random::lemma_alphanumeric_is_printable;
use crate::random::printable;
use crate::random::uniform_inclusive;
use crate::text::chars_of;
use crate::text::string_of;
use rand::rngs::StdRng;
use vstd::prelude::*;

verus! {

/// Shortest string that `gen_random_strings` makes.
pub const RANDOM_STRING_MIN: usize = 1;

/// Longest string that `gen_random_strings` makes.
pub const RANDOM_STRING_MAX: usize = 5;

/// `s` with its characters at `pos1` and `pos2` exchanged.
pub open spec fn flipped(s: Seq<char>, pos1: int, pos2: int) -> Seq<char> {
    s.update(pos1, s[pos2]).update(pos2, s[pos1])
}

/// `r` is `s` with one printable character inserted somewhere.
pub open spec fn is_insertion(s: Seq<char>, r: Seq<char>) -> bool {
    exists|pos: int, c: char|
        0 <= pos <= s.len() && is_printable(c) && r == #[trigger] s.insert(pos, c)
}

/// `r` is `s` with one character removed.
pub open spec fn is_deletion(s: Seq<char>, r: Seq<char>) -> bool {
    exists|pos: int| 0 <= pos < s.len() && r == #[trigger] s.remove(pos)
}

/// `r` is `s` with the characters at two positions, which may be the same
/// position, exchanged.
pub open spec fn is_flip(s: Seq<char>, r: Seq<char>) -> bool {
    exists|pos1: int, pos2: int|
        0 <= pos1 < s.len() && 0 <= pos2 < s.len() && r == #[trigger] flipped(s, pos1, pos2)
}

/// `s` with `c` inserted so that it stands at `position`.
pub fn insert_char(s: &str, position: usize, c: char) -> (r: String)
    requires
        position <= s@.len(),
    ensures
        r@ == s@.insert(position as int, c),
{
    let mut chars = chars_of(s);
    chars.insert(position, c);
    string_of(&chars)
}

/// `s` without the character at `position`.
pub fn delete_char(s: &str, position: usize) -> (r: String)
    requires
        position < s@.len(),
    ensures
        r@ == s@.remove(position as int),
{
    let mut chars = chars_of(s);
    let _ = chars.remove(position);
    string_of(&chars)
}

/// `s` with `c` in place of the character at `position`.
pub fn replace_char(s: &str, position: usize, c: char) -> (r: String)
    requires
        position < s@.len(),
    ensures
        r@ == s@.update(position as int, c),
{
    let mut chars = chars_of(s);
    chars.set(position, c);
    string_of(&chars)
}

/// `s` with the characters at `pos1` and `pos2` exchanged.
pub fn flip_chars(s: &str, pos1: usize, pos2: usize) -> (r: String)
    requires
        pos1 < s@.len(),
        pos2 < s@.len(),
    ensures
        r@ == flipped(s@, pos1 as int, pos2 as int),
{
    let c1 = s.get_char(pos1);
    let c2 = s.get_char(pos2);
    let once = replace_char(s, pos1, c2);
    replace_char(once.as_str(), pos2, c1)
}

/// A string of `len` characters, each drawn on its own: from the whole
/// printable range if `any_printable` is set, from letters and digits if not.
pub fn random_string(any_printable: bool, len: usize, rng: &mut StdRng) -> (r: String)
    ensures
        r@.len() == len,
        all_printable(r@),
        !any_printable ==> all_alphanumeric(r@),
{
    let mut chars: Vec<char> = Vec::new();
    let mut i: usize = 0;
    while i < len
        invariant
            i <= len,
            chars@.len() == i,
            all_printable(chars@),
            !any_printable ==> all_alphanumeric(chars@),
        decreases len - i,
    {
        let c = if any_printable {
            printable(rng)
        } else {
            let c = alphanumeric(rng);
            proof {
                lemma_alphanumeric_is_printable(c);
            }
            c
        };
        chars.push(c);
        i = i + 1;
    }
    string_of(&chars)
}

/// The fresh input of a reseed: exactly one string, between
/// `RANDOM_STRING_MIN` and `RANDOM_STRING_MAX` characters long. One draw
/// decides for the whole string whether its characters come from the
/// printable range or from letters and digits only; either way every
/// character is printable.
pub fn gen_random_strings(rng: &mut StdRng) -> (seeds: Vec<String>)
    ensures
        seeds@.len() == 1,
        RANDOM_STRING_MIN <= seeds@[0]@.len() <= RANDOM_STRING_MAX,
        all_printable(seeds@[0]@),
{
    let any_printable = coin(rng);
    let len: usize = uniform_inclusive(rng, RANDOM_STRING_MIN, RANDOM_STRING_MAX);
    let mut seeds: Vec<String> = Vec::new();
    seeds.push(random_string(any_printable, len, rng));
    seeds
}

/// The mutation engine. It keeps no state of its own: every random choice
/// comes from the generator handed to the call.
pub struct Mutator {}

impl Mutator {
    /// A mutation engine.
    pub fn new() -> Mutator {
        Mutator {}
    }

    /// One edit of `candidate`, its kind drawn evenly among insertion,
    /// deletion and flip. On the empty string every kind is an insertion.
    pub fn mutate(&self, candidate: String, rng: &mut StdRng) -> (r: String)
        ensures
            is_insertion(candidate@, r@) || is_deletion(candidate@, r@) || is_flip(
                candidate@,
                r@,
            ),
            candidate@.len() == 0 ==> is_insertion(candidate@, r@),
    {
        let kind: usize = uniform_inclusive(rng, 0, 2);
        if kind == 0 {
            self.insert_random_char(candidate, rng)
        } else if kind == 1 {
            self.delete_random_char(candidate, rng)
        } else {
            self.flip_random_char(candidate, rng)
        }
    }

    /// Inserts a printable character at a position drawn from `0` to the
    /// length of `s`, both included.
    pub fn insert_random_char(&self, s: String, rng: &mut StdRng) -> (r: String)
        ensures
            is_insertion(s@, r@),
            r@.len() == s@.len() + 1,
    {
        let c = printable(rng);
        let position: usize = uniform_inclusive(rng, 0, s.as_str().unicode_len());
        insert_char(s.as_str(), position, c)
    }

    /// Removes the character at a position drawn among those of `s`. The
    /// empty string gets an insertion instead.
    pub fn delete_random_char(&self, s: String, rng: &mut StdRng) -> (r: String)
        ensures
            s@.len() > 0 ==> is_deletion(s@, r@) && r@.len() == s@.len() - 1,
            s@.len() == 0 ==> is_insertion(s@, r@) && r@.len() == 1,
    {
        let len: usize = s.as_str().unicode_len();
        if len == 0 {
            return self.insert_random_char(s, rng);
        }
        let position: usize = uniform_inclusive(rng, 0, len - 1);
        delete_char(s.as_str(), position)
    }

    /// Exchanges the characters at two positions of `s`, each drawn on its
    /// own among those of `s`, so that they may coincide. The empty string
    /// gets an insertion instead.
    pub fn flip_random_char(&self, s: String, rng: &mut StdRng) -> (r: String)
        ensures
            s@.len() > 0 ==> is_flip(s@, r@) && r@.len() == s@.len(),
            s@.len() == 0 ==> is_insertion(s@, r@) && r@.len() == 1,
    {
        let len: usize = s.as_str().unicode_len();
        if len == 0 {
            return self.insert_random_char(s, rng);
        }
        let pos1: usize = uniform_inclusive(rng, 0, len - 1);
        let pos2: usize = uniform_inclusive(rng, 0, len - 1);
        flip_chars(s.as_str(), pos1, pos2)
    }
}

/// An insertion makes the string one longer, puts the new character at the
/// chosen position and leaves every other character where it was relative
/// to its neighbours: taking the new character out again gives `s` back.
pub proof fn lemma_insertion(s: Seq<char>, pos: int, c: char)
    requires
        0 <= pos <= s.len(),
    ensures
        s.insert(pos, c).len() == s.len() + 1,
        s.insert(pos, c)[pos] == c,
        forall|i: int| 0 <= i < pos ==> s.insert(pos, c)[i] == s[i],
        forall|i: int| pos < i <= s.len() ==> s.insert(pos, c)[i] == s[i - 1],
        s.insert(pos, c).remove(pos) == s,
{
}

/// A deletion makes a non-empty string one shorter.
pub proof fn lemma_deletion(s: Seq<char>, pos: int)
    requires
        0 <= pos < s.len(),
    ensures
        s.remove(pos).len() == s.len() - 1,
        forall|i: int| 0 <= i < pos ==> s.remove(pos)[i] == s[i],
        forall|i: int| pos <= i < s.len() - 1 ==> s.remove(pos)[i] == s[i + 1],
{
}

/// A flip keeps the length. Where the two positions coincide, or hold the
/// same character, the string is unchanged; where they differ and hold
/// different characters, the string changes.
pub proof fn lemma_flip(s: Seq<char>, pos1: int, pos2: int)
    requires
        0 <= pos1 < s.len(),
        0 <= pos2 < s.len(),
    ensures
        flipped(s, pos1, pos2).len() == s.len(),
        flipped(s, pos1, pos2)[pos1] == s[pos2],
        flipped(s, pos1, pos2)[pos2] == s[pos1],
        forall|i: int|
            0 <= i < s.len() && i != pos1 && i != pos2 ==> flipped(s, pos1, pos2)[i] == s[i],
        pos1 == pos2 ==> flipped(s, pos1, pos2) == s,
        s[pos1] == s[pos2] ==> flipped(s, pos1, pos2) == s,
        pos1 != pos2 && s[pos1] != s[pos2] ==> flipped(s, pos1, pos2) != s,
{
}

} // verus!
