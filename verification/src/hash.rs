//! Content digests: the identity of a chunk and of a merged tree.

use vstd::prelude::*;

verus! {

/// A digest of a sequence of words.
#[derive(Clone, Copy, PartialEq, Eq, Structural, PartialOrd, Ord, Hash, Debug)]
pub struct ContentHash(pub u64);

/// The state of a digest before any word.
pub const OFFSET_BASIS: u64 = 0xcbf2_9ce4_8422_2325;

/// The factor that spreads the state after each word.
pub const PRIME: u64 = 0x0000_0100_0000_01b3;

/// One step of the digest: the word is folded in, then the state is spread
/// by a multiplication that wraps.
pub open spec fn mix(state: u64, word: u64) -> u64 {
    (state ^ word).wrapping_mul(PRIME)
}

/// The digest of `words`: every word mixed in, first to last, from the
/// offset basis.
pub open spec fn digest(words: Seq<u64>) -> u64
    decreases words.len(),
{
    if words.len() == 0 {
        OFFSET_BASIS
    } else {
        mix(digest(words.drop_last()), words.last())
    }
}

/// A digest in the making.
pub struct Hasher {
    state: u64,
    seen: Ghost<Seq<u64>>,
}

impl Hasher {
    /// The words written so far.
    pub closed spec fn words(&self) -> Seq<u64> {
        self.seen@
    }

    #[verifier::type_invariant]
    spec fn sound(&self) -> bool {
        self.state == digest(self.seen@)
    }

    /// A digest of no words yet.
    pub fn new() -> (h: Hasher)
        ensures
            h.words() == Seq::<u64>::empty(),
    {
        Hasher { state: OFFSET_BASIS, seen: Ghost(Seq::empty()) }
    }

    /// Mixes `word` in.
    pub fn write(&mut self, word: u64)
        ensures
            final(self).words() == old(self).words().push(word),
    {
        proof {
            use_type_invariant(&*self);
            assert(self.seen@.push(word).drop_last() =~= self.seen@);
        }
        *self = Hasher {
            state: (self.state ^ word).wrapping_mul(PRIME),
            seen: Ghost(self.seen@.push(word)),
        };
    }

    /// The digest of the words written.
    pub fn finish(&self) -> (h: ContentHash)
        ensures
            h.0 == digest(self.words()),
    {
        proof {
            use_type_invariant(self);
        }
        ContentHash(self.state)
    }
}

/// The digest of a list of words.
pub fn hash_words(words: &Vec<u64>) -> (h: ContentHash)
    ensures
        h.0 == digest(words@),
{
    let mut hasher = Hasher::new();
    let mut i: usize = 0;
    while i < words.len()
        invariant
            i <= words.len(),
            hasher.words() == words@.take(i as int),
        decreases words.len() - i,
    {
        hasher.write(words[i]);
        assert(words@.take(i as int).push(words@[i as int]) =~= words@.take(i + 1));
        i += 1;
    }
    assert(words@.take(i as int) =~= words@);
    hasher.finish()
}

} // verus!
