use vstd::prelude::*;

use crate::cache::{
    apply_fetch_to, apply_stream, apply_update_to, keys_unique, last_streamed, lookup, merge_snapshot,
};

verus! {

proof fn lemma_stream_concat(
    m: Map<Seq<char>, u64>,
    a: Seq<Result<(Seq<char>, u64), Seq<char>>>,
    b: Seq<Result<(Seq<char>, u64), Seq<char>>>,
)
    ensures
        apply_stream(m, a + b) == apply_stream(apply_stream(m, a), b),
    decreases b.len(),
{
    if b.len() == 0 {
        assert(a + b =~= a);
    } else {
        lemma_stream_concat(m, a, b.drop_last());
        assert((a + b).drop_last() =~= a + b.drop_last());
        assert((a + b).last() == b.last());
    }
}

proof fn lemma_last_streamed_concat(
    a: Seq<Result<(Seq<char>, u64), Seq<char>>>,
    b: Seq<Result<(Seq<char>, u64), Seq<char>>>,
    k: Seq<char>,
)
    ensures
        last_streamed(a + b, k) == if last_streamed(b, k) is Some {
            last_streamed(b, k)
        } else {
            last_streamed(a, k)
        },
    decreases b.len(),
{
    if b.len() == 0 {
        assert(a + b =~= a);
    } else {
        lemma_last_streamed_concat(a, b.drop_last(), k);
        assert((a + b).drop_last() =~= a + b.drop_last());
        assert((a + b).last() == b.last());
    }
}

proof fn lemma_last_streamed_written(u: Seq<Result<(Seq<char>, u64), Seq<char>>>, k: Seq<char>)
    ensures
        last_streamed(u, k) is Some ==> exists|i: int|
            0 <= i < u.len() && u[i] == Ok::<(Seq<char>, u64), Seq<char>>((k, last_streamed(u, k)->Some_0)),
    decreases u.len(),
{
    if u.len() > 0 {
        let d = u.drop_last();
        lemma_last_streamed_written(d, k);
        if u.last() is Ok && u.last()->Ok_0.0 == k {
            assert(u[u.len() - 1] == Ok::<(Seq<char>, u64), Seq<char>>((k, last_streamed(u, k)->Some_0)));
        } else if last_streamed(d, k) is Some {
            let i = choose|i: int|
                0 <= i < d.len() && d[i] == Ok::<(Seq<char>, u64), Seq<char>>((k, last_streamed(d, k)->Some_0));
            assert(u[i] == d[i]);
        }
    }
}

proof fn lemma_merge_snapshot(m: Map<Seq<char>, u64>, s: Seq<(Seq<char>, u64)>, k: Seq<char>)
    ensures
        m.contains_key(k) ==> lookup(merge_snapshot(m, s), k) == lookup(m, k),
        !m.contains_key(k) ==> (merge_snapshot(m, s).contains_key(k) <==> exists|i: int|
            0 <= i < s.len() && s[i].0 == k),
        !m.contains_key(k) && merge_snapshot(m, s).contains_key(k) ==> exists|i: int|
            0 <= i < s.len() && s[i] == (k, merge_snapshot(m, s)[k]),
        !m.contains_key(k) && keys_unique(s) ==> forall|i: int|
            0 <= i < s.len() && s[i].0 == k ==> lookup(merge_snapshot(m, s), k) == Some(s[i].1),
    decreases s.len(),
{
    if s.len() > 0 {
        let d = s.drop_last();
        let n = s.len() - 1;
        lemma_merge_snapshot(m, d, k);
        if !m.contains_key(k) {
            if exists|i: int| 0 <= i < s.len() && s[i].0 == k {
                let i = choose|i: int| 0 <= i < s.len() && s[i].0 == k;
                if i < n {
                    assert(d[i].0 == k);
                }
            }
            if merge_snapshot(m, d).contains_key(k) {
                let i = choose|i: int| 0 <= i < d.len() && d[i].0 == k;
                assert(s[i].0 == k);
                let j = choose|j: int| 0 <= j < d.len() && d[j] == (k, merge_snapshot(m, d)[k]);
                assert(s[j] == d[j]);
            }
            if keys_unique(s) {
                assert(keys_unique(d)) by {
                    assert forall|a: int, b: int|
                        0 <= a < d.len() && 0 <= b < d.len() && #[trigger] d[a].0 == #[trigger] d[b].0 implies a
                        == b by {
                        assert(s[a].0 == s[b].0);
                    }
                }
                assert forall|i: int| 0 <= i < s.len() && s[i].0 == k implies lookup(
                    merge_snapshot(m, s),
                    k,
                ) == Some(s[i].1) by {
                    if i < n {
                        assert(d[i].0 == k);
                        assert(s[i].0 != s[n].0);
                    } else {
                        assert forall|j: int| 0 <= j < d.len() implies d[j].0 != k by {
                            assert(s[j].0 == d[j].0);
                        }
                    }
                }
            }
        }
    }
}

/// Reading a key after a run of stream elements gives the value of the last
/// received element for that key; failed elements are skipped, and a key the
/// run never mentions keeps what it had before.
pub proof fn law_stream_last_wins(
    m: Map<Seq<char>, u64>,
    u: Seq<Result<(Seq<char>, u64), Seq<char>>>,
    k: Seq<char>,
)
    ensures
        lookup(apply_stream(m, u), k) == if last_streamed(u, k) is Some {
            last_streamed(u, k)
        } else {
            lookup(m, k)
        },
    decreases u.len(),
{
    if u.len() > 0 {
        law_stream_last_wins(m, u.drop_last(), k);
    }
}

/// A failed stream element does not stop the elements after it: the table
/// ends as if the failed element had never been received.
pub proof fn law_failed_element_skipped(
    m: Map<Seq<char>, u64>,
    before: Seq<Result<(Seq<char>, u64), Seq<char>>>,
    reason: Seq<char>,
    after: Seq<Result<(Seq<char>, u64), Seq<char>>>,
)
    ensures
        apply_stream(m, before + seq![Err(reason)] + after) == apply_stream(m, before + after),
{
    let failed = seq![Err::<(Seq<char>, u64), Seq<char>>(reason)];
    lemma_stream_concat(m, before + failed, after);
    lemma_stream_concat(m, before, failed);
    lemma_stream_concat(m, before, after);
    assert(failed.drop_last() =~= Seq::<Result<(Seq<char>, u64), Seq<char>>>::empty());
    assert(apply_stream(apply_stream(m, before), failed) == apply_update_to(
        apply_stream(apply_stream(m, before), Seq::empty()),
        failed.last(),
    ));
}

/// A snapshot pair whose key is absent when the snapshot is merged is
/// readable afterwards, and stays so while no stream element for that key
/// is received.
pub proof fn law_snapshot_fills_absent(
    m: Map<Seq<char>, u64>,
    s: Seq<(Seq<char>, u64)>,
    i: int,
    u: Seq<Result<(Seq<char>, u64), Seq<char>>>,
)
    requires
        keys_unique(s),
        0 <= i < s.len(),
        !m.contains_key(s[i].0),
        last_streamed(u, s[i].0) is None,
    ensures
        lookup(apply_stream(merge_snapshot(m, s), u), s[i].0) == Some(s[i].1),
{
    lemma_merge_snapshot(m, s, s[i].0);
    law_stream_last_wins(merge_snapshot(m, s), u, s[i].0);
}

/// Once the stream has delivered a key, the snapshot never decides it: with
/// the snapshot merged at any point of the stream (before the first element,
/// between two, or after the last), the key reads as the last streamed value.
pub proof fn law_stream_precedence(
    m: Map<Seq<char>, u64>,
    s: Seq<(Seq<char>, u64)>,
    early: Seq<Result<(Seq<char>, u64), Seq<char>>>,
    late: Seq<Result<(Seq<char>, u64), Seq<char>>>,
    k: Seq<char>,
)
    requires
        last_streamed(early + late, k) is Some,
    ensures
        lookup(apply_stream(merge_snapshot(apply_stream(m, early), s), late), k) == last_streamed(
            early + late,
            k,
        ),
{
    let mid = merge_snapshot(apply_stream(m, early), s);
    lemma_last_streamed_concat(early, late, k);
    law_stream_last_wins(mid, late, k);
    law_stream_last_wins(m, early, k);
    lemma_merge_snapshot(apply_stream(m, early), s, k);
}

/// Every value read from a table that started empty was written for that
/// key, either by the snapshot or by a received stream element, wherever
/// the snapshot fell among the stream elements.
pub proof fn law_values_were_written(
    s: Seq<(Seq<char>, u64)>,
    early: Seq<Result<(Seq<char>, u64), Seq<char>>>,
    late: Seq<Result<(Seq<char>, u64), Seq<char>>>,
    k: Seq<char>,
)
    ensures
        ({
            let t = apply_stream(merge_snapshot(apply_stream(Map::empty(), early), s), late);
            t.contains_key(k) ==> (exists|i: int| 0 <= i < s.len() && s[i] == (k, t[k])) || (exists|i: int|
                0 <= i < (early + late).len() && (early + late)[i] == Ok::<(Seq<char>, u64), Seq<char>>(
                    (k, t[k]),
                ))
        }),
{
    let e = Map::<Seq<char>, u64>::empty();
    let first = apply_stream(e, early);
    let mid = merge_snapshot(first, s);
    let t = apply_stream(mid, late);
    lemma_last_streamed_concat(early, late, k);
    lemma_last_streamed_written(early + late, k);
    law_stream_last_wins(mid, late, k);
    law_stream_last_wins(e, early, k);
    lemma_merge_snapshot(first, s, k);
}

/// A failed fetch does not keep streamed keys from being read: wherever the
/// failure lands among the stream elements, each key the stream delivered
/// reads as its last streamed value, and every other key as before.
pub proof fn law_failed_fetch_keeps_stream(
    m: Map<Seq<char>, u64>,
    reason: Seq<char>,
    early: Seq<Result<(Seq<char>, u64), Seq<char>>>,
    late: Seq<Result<(Seq<char>, u64), Seq<char>>>,
    k: Seq<char>,
)
    ensures
        lookup(apply_stream(apply_fetch_to(apply_stream(m, early), Err(reason)), late), k) == if last_streamed(
            early + late,
            k,
        ) is Some {
            last_streamed(early + late, k)
        } else {
            lookup(m, k)
        },
{
    lemma_stream_concat(m, early, late);
    law_stream_last_wins(m, early + late, k);
}

/// Entries are never removed: a key present before a fetch outcome or a
/// stream element is applied is still present afterwards.
pub proof fn law_keys_stay(
    m: Map<Seq<char>, u64>,
    f: Result<Seq<(Seq<char>, u64)>, Seq<char>>,
    u: Result<(Seq<char>, u64), Seq<char>>,
    k: Seq<char>,
)
    requires
        m.contains_key(k),
    ensures
        apply_fetch_to(m, f).contains_key(k),
        apply_update_to(m, u).contains_key(k),
{
    if let Ok(s) = f {
        lemma_merge_snapshot(m, s, k);
    }
}

/// The final table does not depend on when the snapshot arrives: starting
/// empty, with a snapshot that holds each key once merged at any point of
/// the stream, a key reads as its last streamed value if the stream
/// delivered it, else as the snapshot's value, else as absent.
pub proof fn law_final_state_any_interleaving(
    s: Seq<(Seq<char>, u64)>,
    early: Seq<Result<(Seq<char>, u64), Seq<char>>>,
    late: Seq<Result<(Seq<char>, u64), Seq<char>>>,
    k: Seq<char>,
)
    requires
        keys_unique(s),
    ensures
        lookup(apply_stream(merge_snapshot(apply_stream(Map::empty(), early), s), late), k) == if last_streamed(
            early + late,
            k,
        ) is Some {
            last_streamed(early + late, k)
        } else {
            lookup(merge_snapshot(Map::empty(), s), k)
        },
{
    let e = Map::<Seq<char>, u64>::empty();
    let first = apply_stream(e, early);
    let mid = merge_snapshot(first, s);
    lemma_last_streamed_concat(early, late, k);
    law_stream_last_wins(mid, late, k);
    law_stream_last_wins(e, early, k);
    lemma_merge_snapshot(first, s, k);
    lemma_merge_snapshot(e, s, k);
    if last_streamed(early + late, k) is None && mid.contains_key(k) {
        let i = choose|i: int| 0 <= i < s.len() && s[i].0 == k;
        assert(lookup(mid, k) == Some(s[i].1));
        assert(lookup(merge_snapshot(e, s), k) == Some(s[i].1));
    }
}

} // verus!
