//! The supported alphabet: the 26 ASCII letters, folded to indices in
//! `[0, 26)` without regard to case.

use vstd::prelude::*;
use vstd::string::StrSliceExecFns;

verus! {

/// Number of letters in the supported alphabet.
pub const ALPHABET_SIZE: usize = 26;

/// True when `c` is an ASCII letter of either case.
pub open spec fn is_letter(c: char) -> bool {
    (97 <= c as u32 <= 122) || (65 <= c as u32 <= 90)
}

/// The letter index of `c`, folding upper case onto lower case.
pub open spec fn letter_of(c: char) -> u8
    recommends
        is_letter(c),
{
    if 97 <= c as u32 <= 122 {
        (c as u32 - 97) as u8
    } else {
        (c as u32 - 65) as u8
    }
}

/// True when every character of `s` is a supported letter.
pub open spec fn all_letters(s: Seq<char>) -> bool {
    forall|k: int| 0 <= k < s.len() ==> is_letter(#[trigger] s[k])
}

/// The letter indices of a word, one per character.
pub open spec fn word_letters(s: Seq<char>) -> Seq<u8> {
    s.map_values(|c: char| letter_of(c))
}

/// Letter indices of letters lie in the alphabet.
pub proof fn lemma_word_letters_in_range(s: Seq<char>)
    requires
        all_letters(s),
    ensures
        word_letters(s).len() == s.len(),
        forall|k: int| 0 <= k < s.len() ==> #[trigger] word_letters(s)[k] < 26,
{
    assert forall|k: int| 0 <= k < s.len() implies #[trigger] word_letters(s)[k] < 26 by {
        assert(is_letter(s[k]));
    }
}

/// Converts a word to its letter indices; rejects the empty word and any
/// word holding a character outside the alphabet.
pub fn word_to_letters(s: &str) -> (r: Option<Vec<u8>>)
    ensures
        match r {
            Some(v) => s@.len() > 0 && all_letters(s@) && v@ == word_letters(s@),
            None => s@.len() == 0 || !all_letters(s@),
        },
{
    let n = s.unicode_len();
    if n == 0 {
        return None;
    }
    let mut v: Vec<u8> = Vec::new();
    let mut k: usize = 0;
    while k < n
        invariant
            k <= n,
            n == s@.len(),
            v@.len() == k,
            forall|j: int| 0 <= j < k ==> is_letter(#[trigger] s@[j]),
            forall|j: int| 0 <= j < k ==> #[trigger] v@[j] == letter_of(s@[j]),
        decreases n - k,
    {
        let c = s.get_char(k);
        let u = c as u32;
        if 97 <= u && u <= 122 {
            v.push((u - 97) as u8);
        } else if 65 <= u && u <= 90 {
            v.push((u - 65) as u8);
        } else {
            proof {
                assert(!is_letter(s@[k as int]));
            }
            return None;
        }
        k = k + 1;
    }
    proof {
        assert(v@ =~= word_letters(s@));
    }
    Some(v)
}

} // verus!
