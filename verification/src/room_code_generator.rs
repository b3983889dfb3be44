//! Room codes: short, opaque, and different for every room a manager opens.

use crate::text::{ascii_uppercase, to_ascii_uppercase};
use block_id::{Alphabet, BlockId};
use vstd::prelude::*;

verus! {

/// What `block_id` makes of a number: the string that a `BlockId` over the
/// lower-case letters, with the given seed and least length, encodes it as.
pub uninterp spec fn block_id_string(seed: u128, length: u8, n: u64) -> Seq<char>;

/// Calls `block_id::BlockId::new` with `Alphabet::lowercase_alpha()` and then
/// `encode_string`. The claim: the outcome depends on seed, length and number
/// alone.
#[verifier::external_body]
fn encode_block_id(seed: u128, length: u8, n: u64) -> (code: String)
    ensures
        code@ == block_id_string(seed, length, n),
{
    BlockId::new(Alphabet::lowercase_alpha(), seed, length).encode_string(n)
}

/// The code of the `n`-th room: what `block_id` makes of `n`, in upper case.
pub open spec fn room_code(seed: u128, length: u8, n: u64) -> Seq<char> {
    ascii_uppercase(block_id_string(seed, length, n))
}

/// The count after one more code. After the last number it starts over.
pub open spec fn next_count(count: u64) -> u64 {
    if count == u64::MAX {
        0
    } else {
        (count + 1) as u64
    }
}

/// Hands out room codes, one after the other.
#[derive(Clone, Debug)]
pub struct RoomCodeGenerator {
    seed: u128,
    count: u64,
    length: u8,
}

/// Mathematical value of a [`RoomCodeGenerator`].
pub struct RoomCodeGeneratorSpec {
    pub seed: u128,
    pub count: u64,
    pub length: u8,
}

impl DeepView for RoomCodeGenerator {
    type V = RoomCodeGeneratorSpec;

    closed spec fn deep_view(&self) -> RoomCodeGeneratorSpec {
        RoomCodeGeneratorSpec { seed: self.seed, count: self.count, length: self.length }
    }
}

impl RoomCodeGenerator {
    /// A generator of codes of at least `length` letters that has handed out
    /// none. Two generators with the same seed hand out the same codes.
    pub fn new(seed: u128, length: u8) -> (generator: Self)
        ensures
            generator.deep_view() == (RoomCodeGeneratorSpec { seed, count: 0, length }),
    {
        RoomCodeGenerator { seed, count: 0, length }
    }

    /// The next code.
    pub fn generate(&mut self) -> (code: String)
        ensures
            final(self).deep_view() == (RoomCodeGeneratorSpec {
                count: next_count(old(self).deep_view().count),
                ..old(self).deep_view()
            }),
            code@ == room_code(
                old(self).deep_view().seed,
                old(self).deep_view().length,
                next_count(old(self).deep_view().count),
            ),
    {
        self.count = if self.count == u64::MAX {
            0
        } else {
            self.count + 1
        };
        let code = encode_block_id(self.seed, self.length, self.count);
        to_ascii_uppercase(code.as_str())
    }
}

} // verus!
