//! Small facts about sequences that several modules share.

use vstd::prelude::*;

verus! {

/// After a push a sequence holds what it held before and the pushed value.
pub proof fn lemma_push_contains<T>(s: Seq<T>, v: T)
    ensures
        forall|c: T|
            #![trigger s.push(v).contains(c)]
            #![trigger s.contains(c)]
            s.push(v).contains(c) <==> s.contains(c) || c == v,
{
    assert forall|c: T|
        #![trigger s.push(v).contains(c)]
        #![trigger s.contains(c)]
        s.push(v).contains(c) <==> s.contains(c) || c == v by {
        if s.push(v).contains(c) {
            let k = choose|k: int| 0 <= k < s.push(v).len() && s.push(v)[k] == c;
            if k < s.len() {
                assert(s[k] == c);
            }
        }
        if s.contains(c) {
            let k = choose|k: int| 0 <= k < s.len() && s[k] == c;
            assert(s.push(v)[k] == c);
        }
        if c == v {
            assert(s.push(v)[s.len() as int] == c);
        }
    }
}

} // verus!
