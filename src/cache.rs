use vstd::prelude::*;

verus! {

/// What reading key `k` from mapping `m` gives: its value, or nothing.
pub open spec fn lookup(m: Map<Seq<char>, u64>, k: Seq<char>) -> Option<u64> {
    if m.contains_key(k) {
        Some(m[k])
    } else {
        None
    }
}

/// The plain view of a list of key/value pairs.
pub open spec fn pairs_view(s: Seq<(String, u64)>) -> Seq<(Seq<char>, u64)> {
    s.map_values(|e: (String, u64)| (e.0@, e.1))
}

/// The plain view of one stream element: a pair, or the reason it failed.
pub open spec fn update_view(u: Result<(String, u64), String>) -> Result<(Seq<char>, u64), Seq<char>> {
    match u {
        Ok(p) => Ok((p.0@, p.1)),
        Err(e) => Err(e@),
    }
}

/// The mapping that a list of entries stands for; a later entry takes precedence.
pub open spec fn map_of(s: Seq<(Seq<char>, u64)>) -> Map<Seq<char>, u64>
    decreases s.len(),
{
    if s.len() == 0 {
        Map::empty()
    } else {
        map_of(s.drop_last()).insert(s.last().0, s.last().1)
    }
}

/// No key occurs twice in the list.
pub open spec fn keys_unique(s: Seq<(Seq<char>, u64)>) -> bool {
    forall|i: int, j: int|
        0 <= i < s.len() && 0 <= j < s.len() && #[trigger] s[i].0 == #[trigger] s[j].0 ==> i == j
}

/// The table after a snapshot is merged in pair by pair: a key that is
/// already present keeps its value, an absent key takes the snapshot's.
pub open spec fn merge_snapshot(m: Map<Seq<char>, u64>, s: Seq<(Seq<char>, u64)>) -> Map<Seq<char>, u64>
    decreases s.len(),
{
    if s.len() == 0 {
        m
    } else {
        let prev = merge_snapshot(m, s.drop_last());
        if prev.contains_key(s.last().0) {
            prev
        } else {
            prev.insert(s.last().0, s.last().1)
        }
    }
}

/// The plain view of a fetch outcome: the snapshot's pairs, or the reason it failed.
pub open spec fn fetch_view(f: Result<Vec<(String, u64)>, String>) -> Result<Seq<(Seq<char>, u64)>, Seq<char>> {
    match f {
        Ok(v) => Ok(pairs_view(v@)),
        Err(e) => Err(e@),
    }
}

/// The table after the outcome of the bulk fetch: a snapshot is merged in,
/// a failure changes nothing.
pub open spec fn apply_fetch_to(
    m: Map<Seq<char>, u64>,
    f: Result<Seq<(Seq<char>, u64)>, Seq<char>>,
) -> Map<Seq<char>, u64> {
    match f {
        Ok(s) => merge_snapshot(m, s),
        Err(_) => m,
    }
}

/// The table after one stream element: a received pair overwrites the key,
/// a failed element changes nothing.
pub open spec fn apply_update_to(
    m: Map<Seq<char>, u64>,
    u: Result<(Seq<char>, u64), Seq<char>>,
) -> Map<Seq<char>, u64> {
    match u {
        Ok(p) => m.insert(p.0, p.1),
        Err(_) => m,
    }
}

/// The table after a run of stream elements, applied in the order received.
pub open spec fn apply_stream(
    m: Map<Seq<char>, u64>,
    u: Seq<Result<(Seq<char>, u64), Seq<char>>>,
) -> Map<Seq<char>, u64>
    decreases u.len(),
{
    if u.len() == 0 {
        m
    } else {
        apply_update_to(apply_stream(m, u.drop_last()), u.last())
    }
}

/// The value of the last received stream element for key `k`, if any.
pub open spec fn last_streamed(u: Seq<Result<(Seq<char>, u64), Seq<char>>>, k: Seq<char>) -> Option<u64>
    decreases u.len(),
{
    if u.len() == 0 {
        None
    } else if u.last() is Ok && u.last()->Ok_0.0 == k {
        Some(u.last()->Ok_0.1)
    } else {
        last_streamed(u.drop_last(), k)
    }
}

proof fn lemma_map_of_domain(s: Seq<(Seq<char>, u64)>, k: Seq<char>)
    ensures
        map_of(s).contains_key(k) <==> exists|i: int| 0 <= i < s.len() && s[i].0 == k,
    decreases s.len(),
{
    if s.len() > 0 {
        let d = s.drop_last();
        lemma_map_of_domain(d, k);
        if map_of(d).contains_key(k) {
            let i = choose|i: int| 0 <= i < d.len() && d[i].0 == k;
            assert(s[i].0 == k);
        }
        if exists|i: int| 0 <= i < s.len() && s[i].0 == k {
            let i = choose|i: int| 0 <= i < s.len() && s[i].0 == k;
            if i < s.len() - 1 {
                assert(d[i].0 == k);
            }
        }
    }
}

proof fn lemma_map_of_at(s: Seq<(Seq<char>, u64)>, i: int)
    requires
        keys_unique(s),
        0 <= i < s.len(),
    ensures
        map_of(s).contains_key(s[i].0),
        map_of(s)[s[i].0] == s[i].1,
    decreases s.len(),
{
    let d = s.drop_last();
    if i < s.len() - 1 {
        assert(s[i].0 != s[s.len() - 1].0);
        assert(keys_unique(d)) by {
            assert forall|a: int, b: int|
                0 <= a < d.len() && 0 <= b < d.len() && #[trigger] d[a].0 == #[trigger] d[b].0 implies a == b by {
                assert(s[a].0 == s[b].0);
            }
        }
        lemma_map_of_at(d, i);
        assert(d[i] == s[i]);
    }
}

proof fn lemma_map_of_update(s: Seq<(Seq<char>, u64)>, i: int, v: u64)
    requires
        keys_unique(s),
        0 <= i < s.len(),
    ensures
        map_of(s.update(i, (s[i].0, v))) == map_of(s).insert(s[i].0, v),
    decreases s.len(),
{
    let k = s[i].0;
    let t = s.update(i, (k, v));
    let d = s.drop_last();
    if i == s.len() - 1 {
        assert(t.drop_last() =~= d);
        assert(map_of(t) =~= map_of(s).insert(k, v));
    } else {
        assert(s[i].0 != s[s.len() - 1].0);
        assert(keys_unique(d)) by {
            assert forall|a: int, b: int|
                0 <= a < d.len() && 0 <= b < d.len() && #[trigger] d[a].0 == #[trigger] d[b].0 implies a == b by {
                assert(s[a].0 == s[b].0);
            }
        }
        lemma_map_of_update(d, i, v);
        assert(t.drop_last() =~= d.update(i, (k, v)));
        assert(map_of(t) =~= map_of(s).insert(k, v));
    }
}

/// The cache's key/value table, written by the snapshot loader (insert if
/// absent) and the update streamer (overwrite), and read by point lookups.
/// Each key is present at most once. Readers and the two writers share it
/// behind one lock held for a single call at a time.
///
/// The entries are kept in a `Vec` rather than a `HashMap`: vstd specifies
/// `HashMap` lookups only for keys whose hashing it models (integers), not
/// for `String`, so a map keyed by city name could not carry these contracts.
pub struct StreamCache {
    entries: Vec<(String, u64)>,
}

impl View for StreamCache {
    type V = Map<Seq<char>, u64>;

    closed spec fn view(&self) -> Map<Seq<char>, u64> {
        map_of(self.model())
    }
}

impl StreamCache {
    /// The entries as plain pairs, in storage order.
    pub closed spec fn model(&self) -> Seq<(Seq<char>, u64)> {
        pairs_view(self.entries@)
    }

    /// Well-formedness: no key is stored twice.
    #[verifier::type_invariant]
    pub closed spec fn wf(&self) -> bool {
        keys_unique(self.model())
    }

    /// A cache with an empty table.
    pub fn new() -> (r: StreamCache)
        ensures
            r@ == Map::<Seq<char>, u64>::empty(),
    {
        let r = StreamCache { entries: Vec::new() };
        assert(r.model().len() == 0);
        r
    }

    fn position(&self, key: &String) -> (r: Option<usize>)
        ensures
            match r {
                Some(i) => i < self.entries@.len() && self.model()[i as int].0 == key@,
                None => forall|i: int| 0 <= i < self.entries@.len() ==> self.model()[i].0 != key@,
            },
    {
        let mut i: usize = 0;
        while i < self.entries.len()
            invariant
                i <= self.entries@.len(),
                forall|j: int| 0 <= j < i ==> self.model()[j].0 != key@,
            decreases self.entries@.len() - i,
        {
            if self.entries[i].0 == *key {
                return Some(i);
            }
            i += 1;
        }
        None
    }

    /// The value stored for `key`, or `None` if it was never written.
    pub fn get(&self, key: &str) -> (r: Option<u64>)
        ensures
            r == lookup(self@, key@),
    {
        let k = key.to_owned();
        proof {
            use_type_invariant(self);
            lemma_map_of_domain(self.model(), key@);
        }
        match self.position(&k) {
            Some(i) => {
                proof {
                    lemma_map_of_at(self.model(), i as int);
                }
                Some(self.entries[i].1)
            },
            None => None,
        }
    }

    /// Writes `value` for `key` unconditionally.
    pub fn overwrite(&mut self, key: String, value: u64)
        ensures
            final(self)@ == old(self)@.insert(key@, value),
    {
        proof {
            use_type_invariant(&*self);
        }
        let ghost before = self.model();
        let ghost k = key@;
        let found = self.position(&key);
        let mut entries: Vec<(String, u64)> = Vec::new();
        std::mem::swap(&mut self.entries, &mut entries);
        match found {
            Some(i) => {
                entries.set(i, (key, value));
                proof {
                    assert(pairs_view(entries@) =~= before.update(i as int, (before[i as int].0, value)));
                    lemma_map_of_update(before, i as int, value);
                }
            },
            None => {
                entries.push((key, value));
                proof {
                    assert(pairs_view(entries@) =~= before.push((k, value)));
                    assert(pairs_view(entries@).drop_last() =~= before);
                }
            },
        }
        self.entries = entries;
    }

    /// Writes `value` for `key` only if `key` is not present yet.
    pub fn insert_if_absent(&mut self, key: String, value: u64)
        ensures
            final(self)@ == if old(self)@.contains_key(key@) {
                old(self)@
            } else {
                old(self)@.insert(key@, value)
            },
    {
        proof {
            use_type_invariant(&*self);
        }
        let ghost before = self.model();
        proof {
            lemma_map_of_domain(before, key@);
        }
        let ghost k = key@;
        if self.position(&key).is_none() {
            let mut entries: Vec<(String, u64)> = Vec::new();
            std::mem::swap(&mut self.entries, &mut entries);
            entries.push((key, value));
            proof {
                assert(pairs_view(entries@) =~= before.push((k, value)));
                assert(pairs_view(entries@).drop_last() =~= before);
            }
            self.entries = entries;
        }
    }

    /// Merges a snapshot in order: each pair is written only if its key is absent.
    pub fn apply_snapshot(&mut self, snapshot: Vec<(String, u64)>)
        ensures
            final(self)@ == merge_snapshot(old(self)@, pairs_view(snapshot@)),
    {
        let ghost start = self@;
        let ghost s = pairs_view(snapshot@);
        let mut i: usize = 0;
        while i < snapshot.len()
            invariant
                i <= snapshot@.len(),
                s == pairs_view(snapshot@),
                self@ == merge_snapshot(start, s.take(i as int)),
            decreases snapshot@.len() - i,
        {
            let key = snapshot[i].0.clone();
            let value = snapshot[i].1;
            self.insert_if_absent(key, value);
            proof {
                assert(s.take(i + 1).drop_last() =~= s.take(i as int));
            }
            i += 1;
        }
        proof {
            assert(s.take(i as int) =~= s);
        }
    }

    /// Handles the outcome of the bulk fetch: a snapshot is merged in, a
    /// failure leaves the table as it is and is handed back for reporting.
    pub fn apply_fetch(&mut self, fetched: Result<Vec<(String, u64)>, String>) -> (r: Option<String>)
        ensures
            final(self)@ == apply_fetch_to(old(self)@, fetch_view(fetched)),
            r == match fetched {
                Ok(_) => None::<String>,
                Err(e) => Some(e),
            },
    {
        match fetched {
            Ok(snapshot) => {
                self.apply_snapshot(snapshot);
                None
            },
            Err(e) => Some(e),
        }
    }

    /// Handles one stream element: a received pair overwrites its key, a
    /// failed element leaves the table as it is and is handed back for reporting.
    pub fn apply_update(&mut self, update: Result<(String, u64), String>) -> (r: Option<String>)
        ensures
            final(self)@ == apply_update_to(old(self)@, update_view(update)),
            r == match update {
                Ok(_) => None::<String>,
                Err(e) => Some(e),
            },
    {
        match update {
            Ok((key, value)) => {
                self.overwrite(key, value);
                None
            },
            Err(e) => Some(e),
        }
    }
}

} // verus!
