//! Random values for one operation: a seed from the caller's generator,
//! stretched by hashing it with a counter.

use vstd::prelude::*;
use rand_core::RngCore;
use crate::cid::HashOutput;
use crate::hash::{hash, sha3_256_digest};

verus! {

/// A source of random values: every value is the hash of the seed and of
/// the number of values drawn before.
#[derive(Clone, Copy, Debug, PartialEq, Eq)]
pub struct Entropy {
    pub seed: HashOutput,
    pub counter: u64,
}

/// The byte `k` of a counter, the lowest first.
pub open spec fn counter_byte(counter: u64, k: int) -> u8 {
    if k == 0 {
        (counter % 256) as u8
    } else if k == 1 {
        ((counter / 0x100) % 256) as u8
    } else if k == 2 {
        ((counter / 0x1_0000) % 256) as u8
    } else if k == 3 {
        ((counter / 0x100_0000) % 256) as u8
    } else if k == 4 {
        ((counter / 0x1_0000_0000) % 256) as u8
    } else if k == 5 {
        ((counter / 0x100_0000_0000) % 256) as u8
    } else if k == 6 {
        ((counter / 0x1_0000_0000_0000) % 256) as u8
    } else {
        ((counter / 0x100_0000_0000_0000) % 256) as u8
    }
}

/// The eight bytes of a counter, the lowest first.
pub open spec fn counter_bytes(counter: u64) -> Seq<u8> {
    Seq::new(8, |k: int| counter_byte(counter, k))
}

/// The value that a seed gives at a count.
pub open spec fn draw(seed: HashOutput, counter: u64) -> HashOutput {
    sha3_256_digest(seed@ + counter_bytes(counter))
}

/// The first twelve bytes of a value.
pub open spec fn nonce_of(value: HashOutput) -> Seq<u8> {
    value@.subrange(0, 12)
}

impl Entropy {
    /// The source after one more value was drawn.
    pub open spec fn advanced(self) -> Entropy {
        Entropy {
            seed: self.seed,
            counter: if self.counter == u64::MAX {
                0
            } else {
                (self.counter + 1) as u64
            },
        }
    }

    /// The source after `n` more values were drawn.
    pub open spec fn after(self, n: nat) -> Entropy
        decreases n,
    {
        if n == 0 {
            self
        } else {
            self.advanced().after((n - 1) as nat)
        }
    }

    /// Makes a source from a seed.
    pub fn new(seed: HashOutput) -> (r: Entropy)
        ensures
            r == (Entropy { seed, counter: 0 }),
    {
        Entropy { seed, counter: 0 }
    }

    /// Makes a source with a seed drawn from `rng`, or none where the
    /// generator reports that it cannot deliver.
    pub fn from_rng<R: RngCore>(rng: &mut R) -> (r: Option<Entropy>)
        ensures
            r matches Some(entropy) ==> entropy.counter == 0,
    {
        match try_random_seed(rng) {
            Some(seed) => Some(Entropy::new(seed)),
            None => None,
        }
    }

    /// Draws the next value.
    pub fn next(&mut self) -> (r: HashOutput)
        ensures
            r == draw(old(self).seed, old(self).counter),
            *final(self) == old(self).advanced(),
    {
        let mut input: Vec<u8> = Vec::new();
        let mut i: usize = 0;
        while i < 32
            invariant
                i <= 32,
                input@ == self.seed@.subrange(0, i as int),
            decreases 32 - i,
        {
            input.push(self.seed[i]);
            proof {
                assert(input@ =~= self.seed@.subrange(0, i + 1));
            }
            i += 1;
        }
        let c = self.counter;
        input.push((c % 256) as u8);
        input.push(((c / 0x100) % 256) as u8);
        input.push(((c / 0x1_0000) % 256) as u8);
        input.push(((c / 0x100_0000) % 256) as u8);
        input.push(((c / 0x1_0000_0000) % 256) as u8);
        input.push(((c / 0x100_0000_0000) % 256) as u8);
        input.push(((c / 0x1_0000_0000_0000) % 256) as u8);
        input.push(((c / 0x100_0000_0000_0000) % 256) as u8);
        proof {
            assert(self.seed@.subrange(0, 32) =~= self.seed@);
            assert(input@ =~= self.seed@ + counter_bytes(c));
        }
        self.counter = if c == u64::MAX {
            0
        } else {
            c + 1
        };
        hash(input.as_slice())
    }

    /// Draws the next nonce.
    pub fn next_nonce(&mut self) -> (r: [u8; 12])
        ensures
            r@ == nonce_of(draw(old(self).seed, old(self).counter)),
            *final(self) == old(self).advanced(),
    {
        let value = self.next();
        let mut nonce: [u8; 12] = vstd::array::array_fill_for_copy_types::<u8, 12>(0u8);
        let mut i: usize = 0;
        while i < 12
            invariant
                i <= 12,
                forall|k: int| 0 <= k < i ==> nonce@[k] == value@[k],
            decreases 12 - i,
        {
            nonce[i] = value[i];
            i += 1;
        }
        proof {
            assert(nonce@ =~= nonce_of(value));
        }
        nonce
    }
}

/// Calls `RngCore::try_fill_bytes` of rand_core on an array of 32 bytes,
/// and gives the array where the generator reports success. Nothing is
/// claimed of the bytes, nor of when the generator succeeds.
#[verifier::external_body]
fn try_random_seed<R: RngCore>(rng: &mut R) -> (r: Option<HashOutput>) {
    let mut seed = [0u8; 32];
    match rng.try_fill_bytes(&mut seed) {
        Ok(()) => Some(seed),
        Err(_) => None,
    }
}

} // verus!
