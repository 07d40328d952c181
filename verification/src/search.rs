//! Plain substring search over line content, used to highlight matches of
//! the user's current search text.

use vstd::prelude::*;
use vstd::string::StringSliceAdditionalSpecFns;

verus! {

/// Does `needle` occur in `hay` at position `i`?
pub open spec fn match_at(hay: Seq<u8>, needle: Seq<u8>, i: int) -> bool {
    &&& 0 <= i
    &&& i + needle.len() <= hay.len()
    &&& hay.subrange(i, i + needle.len()) == needle
}

/// Finds every occurrence of `search` in `content`, overlapping ones
/// included, as half-open byte ranges in increasing order. An empty search
/// text matches nothing.
pub fn find_all_matches(content: &str, search: &str) -> (r: Vec<(usize, usize)>)
    ensures
        search.spec_bytes().len() == 0 ==> r@.len() == 0,
        search.spec_bytes().len() > 0 ==> {
            let hay = content.spec_bytes();
            let needle = search.spec_bytes();
            &&& forall|k: int|
                0 <= k < r@.len() ==> match_at(hay, needle, (#[trigger] r@[k]).0 as int)
                    && r@[k].1 == r@[k].0 + needle.len()
            &&& forall|i: int| match_at(hay, needle, i) ==> exists|k: int|
                0 <= k < r@.len() && (#[trigger] r@[k]).0 == i
            &&& forall|k1: int, k2: int|
                0 <= k1 < k2 < r@.len() ==> (#[trigger] r@[k1]).0 < (#[trigger] r@[k2]).0
        },
{
    let mut matches: Vec<(usize, usize)> = Vec::new();
    let hay = content.as_bytes();
    let needle = search.as_bytes();
    if needle.len() == 0 {
        return matches;
    }
    if hay.len() < needle.len() {
        proof {
            assert(forall|i: int| !match_at(content.spec_bytes(), search.spec_bytes(), i));
        }
        return matches;
    }
    let bound = hay.len() - needle.len();
    let hlen = hay.len();
    let mut i: usize = 0;
    while i <= bound
        invariant
            hay@ == content.spec_bytes(),
            needle@ == search.spec_bytes(),
            needle@.len() >= 1,
            bound == hay@.len() - needle@.len(),
            hlen == hay@.len(),
            bound + needle@.len() == hlen,
            0 <= i <= bound + 1,
            forall|k: int|
                0 <= k < matches@.len() ==> match_at(hay@, needle@, (#[trigger] matches@[k]).0 as int)
                    && matches@[k].1 == matches@[k].0 + needle@.len(),
            forall|p: int|
                0 <= p < i && match_at(hay@, needle@, p) ==> exists|k: int|
                    0 <= k < matches@.len() && (#[trigger] matches@[k]).0 == p,
            forall|k: int| 0 <= k < matches@.len() ==> (#[trigger] matches@[k]).0 < i,
            forall|k1: int, k2: int|
                0 <= k1 < k2 < matches@.len() ==> (#[trigger] matches@[k1]).0 < (
                #[trigger] matches@[k2]).0,
        decreases bound + 1 - i,
    {
        let window = &hay[i..i + needle.len()];
        proof {
            assert(window@ =~= hay@.subrange(i as int, i + needle@.len()));
        }
        if crate::bytes::bytes_eq(window, needle) {
            let ghost before = matches@;
            matches.push((i, i + needle.len()));
            proof {
                assert(matches@[before.len() as int].0 == i);
                assert(match_at(hay@, needle@, i as int));
                assert forall|p: int|
                    0 <= p < i + 1 && match_at(hay@, needle@, p) implies exists|k: int|
                    0 <= k < matches@.len() && (#[trigger] matches@[k]).0 == p by {
                    if p == i {
                        assert(matches@[before.len() as int].0 == p);
                    } else {
                        let k = choose|k: int|
                            0 <= k < before.len() && (#[trigger] before[k]).0 == p;
                        assert(matches@[k].0 == p);
                    }
                }
            }
        } else {
            proof {
                assert(!match_at(hay@, needle@, i as int));
            }
        }
        i += 1;
    }
    proof {
        assert(forall|p: int|
            match_at(hay@, needle@, p) ==> 0 <= p <= bound);
    }
    matches
}

} // verus!
