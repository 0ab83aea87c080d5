//! Byte-string helpers.

use vstd::prelude::*;

verus! {

/// The byte value of an ASCII space.
pub const SPACE: u8 = 32;

/// The length of the first word of `s`: the index of the first space byte,
/// or the length of `s` when it holds no space.
pub open spec fn word_end(s: Seq<u8>) -> int
    decreases s.len(),
{
    if s.len() == 0 {
        0
    } else if s.first() == SPACE {
        0
    } else {
        1 + word_end(s.drop_first())
    }
}

/// `word_end(s)` is the position of the first space, pinned down pointwise:
/// if no byte before `i` is a space, and `i` is either the end of `s` or a
/// space, then the first word ends at `i`.
proof fn lemma_word_end_at(s: Seq<u8>, i: int)
    requires
        0 <= i <= s.len(),
        forall|j: int| 0 <= j < i ==> s[j] != SPACE,
        i == s.len() || s[i] == SPACE,
    ensures
        word_end(s) == i,
    decreases s.len(),
{
    if s.len() == 0 {
    } else if s.first() == SPACE {
        assert(i == 0);
    } else {
        assert(forall|j: int| 0 <= j < i - 1 ==> s.drop_first()[j] == s[j + 1]);
        lemma_word_end_at(s.drop_first(), i - 1);
    }
}

/// The first word of `s`: the bytes before the first space, or all of `s`
/// when it holds no space.
pub fn first_word(s: &Vec<u8>) -> (r: Vec<u8>)
    ensures
        r@ == s@.subrange(0, word_end(s@)),
{
    let mut r: Vec<u8> = Vec::new();
    let mut i: usize = 0;
    while i < s.len()
        invariant
            i <= s@.len(),
            r@ == s@.subrange(0, i as int),
            forall|j: int| 0 <= j < i ==> s@[j] != SPACE,
        decreases s@.len() - i,
    {
        if s[i] == SPACE {
            proof {
                lemma_word_end_at(s@, i as int);
            }
            return r;
        }
        r.push(s[i]);
        proof {
            assert(r@ =~= s@.subrange(0, i + 1));
        }
        i += 1;
    }
    proof {
        lemma_word_end_at(s@, s@.len() as int);
        assert(r@ =~= s@.subrange(0, s@.len() as int));
    }
    r
}

/// Does nothing.
pub fn test() {
}

} // verus!
