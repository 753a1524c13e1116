//! Summing the code points of a string's characters.

use vstd::prelude::*;

verus! {

/// The sum of the code points of the characters of `s`.
pub open spec fn sum_codes(s: Seq<char>) -> int
    decreases s.len(),
{
    if s.len() == 0 {
        0
    } else {
        sum_codes(s.drop_last()) + (s.last() as u32)
    }
}

/// The sum of the code points of any sequence of characters is nonnegative,
/// and a prefix never sums to more than the whole.
pub proof fn lemma_sum_codes_prefix(s: Seq<char>, i: int)
    requires
        0 <= i <= s.len(),
    ensures
        0 <= sum_codes(s.subrange(0, i)),
        sum_codes(s.subrange(0, i)) <= sum_codes(s),
    decreases s.len() - i,
{
    lemma_sum_codes_nonneg(s.subrange(0, i));
    if i == s.len() {
        assert(s.subrange(0, i) =~= s);
    } else {
        lemma_sum_codes_prefix(s, i + 1);
        assert(s.subrange(0, i + 1).drop_last() =~= s.subrange(0, i));
        assert(sum_codes(s.subrange(0, i + 1)) == sum_codes(s.subrange(0, i)) + (s[i] as u32));
    }
}

proof fn lemma_sum_codes_nonneg(s: Seq<char>)
    ensures
        sum_codes(s) >= 0,
    decreases s.len(),
{
    if s.len() > 0 {
        lemma_sum_codes_nonneg(s.drop_last());
    }
}

/// Adds up the code points of the characters of `s`.
pub fn sum_of_character_codes(s: &str) -> (sum: u32)
    requires
        sum_codes(s@) <= u32::MAX,
    ensures
        sum == sum_codes(s@),
{
    let n = s.unicode_len();
    let mut sum: u32 = 0;
    let mut i: usize = 0;
    proof {
        assert(s@.subrange(0, 0) =~= Seq::<char>::empty());
    }
    while i < n
        invariant
            n == s@.len(),
            0 <= i <= n,
            sum == sum_codes(s@.subrange(0, i as int)),
            sum_codes(s@) <= u32::MAX,
        decreases n - i,
    {
        let c = s.get_char(i);
        proof {
            lemma_sum_codes_prefix(s@, i + 1);
            assert(s@.subrange(0, i + 1).drop_last() =~= s@.subrange(0, i as int));
            assert(sum_codes(s@.subrange(0, i + 1)) == sum_codes(s@.subrange(0, i as int)) + (
            s@[i as int] as u32));
        }
        sum += c as u32;
        i += 1;
    }
    proof {
        assert(s@.subrange(0, n as int) =~= s@);
    }
    sum
}

} // verus!
