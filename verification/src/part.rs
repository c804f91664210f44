//! Parts of sequences: what stands where.

use vstd::prelude::*;

verus! {

/// `part` stands in `s` from `pos` on.
pub open spec fn stands_at<T>(s: Seq<T>, pos: int, part: Seq<T>) -> bool {
    0 <= pos && pos + part.len() <= s.len() && s.subrange(pos, pos + part.len()) == part
}

/// Where a part stands, each of its items stands.
pub proof fn lemma_stands_at_index<T>(s: Seq<T>, pos: int, part: Seq<T>, i: int)
    requires
        stands_at(s, pos, part),
        0 <= i < part.len(),
    ensures
        s[pos + i] == part[i],
{
    assert(s.subrange(pos, pos + part.len())[i] == part[i]);
}

/// Two parts stand one behind the other where their concatenation stands.
pub proof fn lemma_stands_at_concat<T>(s: Seq<T>, pos: int, first: Seq<T>, second: Seq<T>)
    ensures
        stands_at(s, pos, first + second) <==> stands_at(s, pos, first) && stands_at(
            s,
            pos + first.len(),
            second,
        ),
{
    let whole = first + second;
    if stands_at(s, pos, whole) {
        assert(s.subrange(pos, pos + first.len()) =~= first) by {
            assert forall|i: int| 0 <= i < first.len() implies s[pos + i] == first[i] by {
                lemma_stands_at_index(s, pos, whole, i);
            }
        }
        assert(s.subrange(pos + first.len(), pos + first.len() + second.len()) =~= second) by {
            assert forall|i: int| 0 <= i < second.len() implies s[pos + first.len() + i]
                == second[i] by {
                lemma_stands_at_index(s, pos, whole, first.len() + i);
            }
        }
    }
    if stands_at(s, pos, first) && stands_at(s, pos + first.len(), second) {
        assert(s.subrange(pos, pos + whole.len()) =~= whole) by {
            assert forall|i: int| 0 <= i < whole.len() implies s[pos + i] == whole[i] by {
                if i < first.len() {
                    lemma_stands_at_index(s, pos, first, i);
                } else {
                    lemma_stands_at_index(s, pos + first.len(), second, i - first.len());
                }
            }
        }
    }
}

} // verus!
