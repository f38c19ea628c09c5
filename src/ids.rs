use std::collections::HashMap;
use vstd::prelude::*;
use crate::messages::{ChannelId, ConnectionId};

verus! {

broadcast use vstd::std_specs::hash::group_hash_axioms;

/// The id space: identifiers are 32-bit counters.
pub open spec fn id_space() -> int {
    0x1_0000_0000
}

/// `c + j`, wrapped into the 32-bit id space.
pub open spec fn wrap_add(c: u32, j: int) -> u32 {
    ((c as int + j) % (id_space())) as u32
}

/// `id` is what a forward scan from `counter` finds first: the candidates
/// `counter + 1, counter + 2, ...` (wrapping) are tried in turn, and `id` is the
/// first one that is not live.
pub open spec fn is_next_free(counter: u32, live: Set<u32>, id: u32) -> bool {
    exists|n: int|
        #![trigger wrap_add(counter, n)]
        1 <= n <= id_space() && id == wrap_add(counter, n) && !live.contains(id) && (
        forall|j: int| 1 <= j < n ==> #[trigger] live.contains(wrap_add(counter, j)))
}

/// An allocated id is never one that is live.
pub proof fn lemma_next_free_is_not_live(counter: u32, live: Set<u32>, id: u32)
    requires
        is_next_free(counter, live, id),
    ensures
        !live.contains(id),
{
}

proof fn lemma_wrap_add_distinct(c: u32, i: int, j: int)
    requires
        1 <= i < j <= id_space(),
    ensures
        wrap_add(c, i) != wrap_add(c, j),
{
}

/// Scans forward from `counter` for the first id that is not a key of `live`.
pub fn allocate_id<V>(counter: u32, live: &HashMap<u32, V>) -> (id: u32)
    requires
        live@.dom().len() < id_space(),
    ensures
        is_next_free(counter, live@.dom(), id),
{
    let ghost dom = live@.dom();
    let ghost mut seen: Set<u32> = Set::empty();
    let mut steps: u32 = 0;
    let mut candidate: u32 = counter.wrapping_add(1);
    assert(candidate == wrap_add(counter, 1));
    while live.contains_key(&candidate)
        invariant
            dom == live@.dom(),
            dom.finite(),
            dom.len() < id_space(),
            seen.finite(),
            seen.len() == steps as nat,
            seen.subset_of(dom),
            steps < dom.len() + 1,
            candidate == wrap_add(counter, steps + 1),
            forall|x: u32| #[trigger]
                seen.contains(x) ==> exists|j: int|
                    1 <= j <= steps && x == #[trigger] wrap_add(counter, j),
            forall|j: int| 1 <= j <= steps ==> #[trigger] dom.contains(wrap_add(counter, j)),
        decreases dom.len() - seen.len(),
    {
        proof {
            assert forall|x: u32| seen.contains(x) implies x != candidate by {
                let j = choose|j: int| 1 <= j <= steps && x == #[trigger] wrap_add(counter, j);
                lemma_wrap_add_distinct(counter, j, steps + 1);
            }
            seen = seen.insert(candidate);
            vstd::set_lib::lemma_len_subset(seen, dom);
        }
        steps = steps + 1;
        candidate = candidate.wrapping_add(1);
        assert(candidate == wrap_add(counter, steps + 1));
    }
    assert(is_next_free(counter, dom, candidate)) by {
        assert(candidate == wrap_add(counter, steps + 1));
    }
    candidate
}

/// Removing one entry of a list without repeats leaves a list without repeats that
/// holds everything else.
pub(crate) proof fn lemma_remove_unique<T>(s: Seq<T>, i: int)
    requires
        0 <= i < s.len(),
        s.no_duplicates(),
    ensures
        s.remove(i).no_duplicates(),
        s.remove(i).len() == s.len() - 1,
        forall|x: T| #[trigger] s.remove(i).contains(x) <==> (s.contains(x) && x != s[i]),
{
    let r = s.remove(i);
    assert forall|a: int, b: int| 0 <= a < b < r.len() implies r[a] != r[b] by {
        let a2 = if a < i { a } else { a + 1 };
        let b2 = if b < i { b } else { b + 1 };
        assert(r[a] == s[a2] && r[b] == s[b2]);
    }
    assert forall|x: T| #[trigger] r.contains(x) <==> (s.contains(x) && x != s[i]) by {
        if r.contains(x) {
            let a = choose|a: int| 0 <= a < r.len() && r[a] == x;
            let a2 = if a < i { a } else { a + 1 };
            assert(s[a2] == x);
        }
        if s.contains(x) && x != s[i] {
            let a = choose|a: int| 0 <= a < s.len() && s[a] == x;
            if a < i {
                assert(r[a] == x);
            } else {
                assert(a != i);
                assert(r[a - 1] == x);
            }
        }
    }
}

/// Removes `id` from a list that holds it once.
pub(crate) fn remove_channel_id(v: &mut Vec<ChannelId>, id: ChannelId)
    requires
        old(v)@.no_duplicates(),
        old(v)@.contains(id),
    ensures
        exists|i: int| 0 <= i < old(v)@.len() && old(v)@[i] == id && final(v)@ == old(v)@.remove(i),
        final(v)@.no_duplicates(),
        forall|x: ChannelId| #[trigger] final(v)@.contains(x) <==> (old(v)@.contains(x) && x != id),
{
    let n = v.len();
    let mut i: usize = 0;
    while v[i] != id
        invariant
            v@ == old(v)@,
            n == v@.len(),
            0 <= i < v@.len(),
            forall|j: int| 0 <= j < i ==> v@[j] != id,
            v@.contains(id),
        decreases v@.len() - i,
    {
        assert(i + 1 < n) by {
            let w = choose|w: int| 0 <= w < v@.len() && v@[w] == id;
            assert(w > i);
        }
        i = i + 1;
    }
    proof {
        lemma_remove_unique(v@, i as int);
    }
    v.remove(i);
}

/// Removes `id` from a list that holds it once.
pub(crate) fn remove_connection_id(v: &mut Vec<ConnectionId>, id: ConnectionId)
    requires
        old(v)@.no_duplicates(),
        old(v)@.contains(id),
    ensures
        exists|i: int| 0 <= i < old(v)@.len() && old(v)@[i] == id && final(v)@ == old(v)@.remove(i),
        final(v)@.no_duplicates(),
        forall|x: ConnectionId| #[trigger] final(v)@.contains(x) <==> (old(v)@.contains(x) && x != id),
{
    let n = v.len();
    let mut i: usize = 0;
    while v[i] != id
        invariant
            v@ == old(v)@,
            n == v@.len(),
            0 <= i < v@.len(),
            forall|j: int| 0 <= j < i ==> v@[j] != id,
            v@.contains(id),
        decreases v@.len() - i,
    {
        assert(i + 1 < n) by {
            let w = choose|w: int| 0 <= w < v@.len() && v@[w] == id;
            assert(w > i);
        }
        i = i + 1;
    }
    proof {
        lemma_remove_unique(v@, i as int);
    }
    v.remove(i);
}

} // verus!
