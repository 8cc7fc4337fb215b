use vstd::prelude::*;

verus! {

/// The first index of a pair keyed `id`, if any.
pub open spec fn first_index_of<V>(s: Seq<(i64, V)>, id: i64) -> Option<int> {
    if exists|i: int|
        0 <= i < s.len() && #[trigger] s[i].0 == id && (forall|q: int|
            0 <= q < i ==> s[q].0 != id) {
        Some(
            choose|i: int|
                0 <= i < s.len() && #[trigger] s[i].0 == id && (forall|q: int|
                    0 <= q < i ==> s[q].0 != id),
        )
    } else {
        None
    }
}

/// When some pair is keyed `id`, there is a first such pair.
pub proof fn lemma_first_index_exists<V>(s: Seq<(i64, V)>, id: i64, i: int)
    requires
        0 <= i < s.len(),
        s[i].0 == id,
    ensures
        first_index_of(s, id) is Some,
    decreases i,
{
    if exists|q: int| 0 <= q < i && s[q].0 == id {
        let q = choose|q: int| 0 <= q < i && s[q].0 == id;
        lemma_first_index_exists(s, id, q);
    } else {
        assert(0 <= i < s.len() && s[i].0 == id && (forall|q: int| 0 <= q < i ==> s[q].0 != id));
    }
}

/// The first pair keyed `id` is keyed `id`.
pub proof fn lemma_first_index_found<V>(s: Seq<(i64, V)>, id: i64)
    requires
        first_index_of(s, id) is Some,
    ensures
        0 <= first_index_of(s, id).unwrap() < s.len(),
        s[first_index_of(s, id).unwrap()].0 == id,
{
}

/// The index of the first pair keyed `id`, if any.
pub fn position_of_id<V>(out: &Vec<(i64, V)>, id: i64) -> (res: Option<usize>)
    ensures
        match res {
            Some(p) => p < out.len() && out@[p as int].0 == id && first_index_of(out@, id) == Some(
                p as int,
            ),
            None => first_index_of(out@, id) is None && forall|q: int|
                0 <= q < out.len() ==> out@[q].0 != id,
        },
{
    let mut p: usize = 0;
    while p < out.len()
        invariant
            p <= out.len(),
            forall|q: int| 0 <= q < p ==> out@[q].0 != id,
        decreases out.len() - p,
    {
        if out[p].0 == id {
            proof {
                let s = out@;
                assert(0 <= p < s.len() && s[p as int].0 == id && (forall|q: int|
                    0 <= q < p ==> s[q].0 != id));
                let c = choose|i: int|
                    0 <= i < s.len() && #[trigger] s[i].0 == id && (forall|q: int|
                        0 <= q < i ==> s[q].0 != id);
                if c < p {
                    assert(s[c].0 != id);
                }
                if c > p {
                    assert(s[p as int].0 != id);
                }
            }
            return Some(p);
        }
        p = p + 1;
    }
    None
}

} // verus!
