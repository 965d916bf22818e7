//! Exact running aggregates per key.  A worker folds records into its own
//! key-to-state mapping; partial mappings are merged pointwise.  Values are
//! tenths held in `i64`, sums are exact in `i128`, and well-formedness bounds
//! every sum by its count so that no accumulation can overflow.

use vstd::prelude::*;
use vstd::slice::slice_to_vec;

verus! {

/// The mathematical image of an aggregate state: unbounded integers.
pub ghost struct AggModel {
    pub min: int,
    pub max: int,
    pub sum: int,
    pub count: int,
}

/// The aggregate of a single observation.
pub open spec fn single_model(v: int) -> AggModel {
    AggModel { min: v, max: v, sum: v, count: 1 }
}

/// The aggregate of everything two states saw: pointwise minimum and
/// maximum, exact sums of sums and counts.
pub open spec fn combine_model(a: AggModel, b: AggModel) -> AggModel {
    AggModel {
        min: if a.min <= b.min {
            a.min
        } else {
            b.min
        },
        max: if a.max >= b.max {
            a.max
        } else {
            b.max
        },
        sum: a.sum + b.sum,
        count: a.count + b.count,
    }
}

/// Fold one state for `key` into a key-to-state mapping.
pub open spec fn fold_model(
    m: Map<Seq<u8>, AggModel>,
    key: Seq<u8>,
    st: AggModel,
) -> Map<Seq<u8>, AggModel> {
    if m.contains_key(key) {
        m.insert(key, combine_model(m[key], st))
    } else {
        m.insert(key, st)
    }
}

/// The aggregate mapping of a record sequence.
pub open spec fn agg_of_records(records: Seq<(Seq<u8>, int)>) -> Map<Seq<u8>, AggModel>
    decreases records.len(),
{
    if records.len() == 0 {
        Map::empty()
    } else {
        fold_model(
            agg_of_records(records.drop_last()),
            records.last().0,
            single_model(records.last().1),
        )
    }
}

/// Merge two aggregate mappings: keys of either side, states combined where
/// both sides saw the key.
pub open spec fn combine_maps(
    a: Map<Seq<u8>, AggModel>,
    b: Map<Seq<u8>, AggModel>,
) -> Map<Seq<u8>, AggModel> {
    Map::new(
        |k: Seq<u8>| a.contains_key(k) || b.contains_key(k),
        |k: Seq<u8>|
            if a.contains_key(k) && b.contains_key(k) {
                combine_model(a[k], b[k])
            } else if a.contains_key(k) {
                a[k]
            } else {
                b[k]
            },
    )
}

pub proof fn lemma_combine_maps_empty(m: Map<Seq<u8>, AggModel>)
    ensures
        combine_maps(m, Map::empty()) == m,
        combine_maps(Map::empty(), m) == m,
{
    assert(combine_maps(m, Map::empty()) =~= m);
    assert(combine_maps(Map::empty(), m) =~= m);
}

/// Folding a state into the right operand of a merge is the same as folding
/// it into the merged mapping.
pub proof fn lemma_combine_fold_step(
    m: Map<Seq<u8>, AggModel>,
    a: Map<Seq<u8>, AggModel>,
    key: Seq<u8>,
    st: AggModel,
)
    ensures
        combine_maps(m, fold_model(a, key, st)) == fold_model(combine_maps(m, a), key, st),
{
    assert(combine_maps(m, fold_model(a, key, st)) =~= fold_model(combine_maps(m, a), key, st));
}

/// Aggregating a concatenation is merging the aggregates of the parts: the
/// heart of merge invariance.
pub proof fn lemma_agg_concat(r1: Seq<(Seq<u8>, int)>, r2: Seq<(Seq<u8>, int)>)
    ensures
        agg_of_records(r1 + r2) == combine_maps(agg_of_records(r1), agg_of_records(r2)),
    decreases r2.len(),
{
    if r2.len() == 0 {
        assert(r1 + r2 =~= r1);
        lemma_combine_maps_empty(agg_of_records(r1));
    } else {
        let r2p = r2.drop_last();
        lemma_agg_concat(r1, r2p);
        assert((r1 + r2).drop_last() =~= r1 + r2p);
        assert((r1 + r2).last() == r2.last());
        lemma_combine_fold_step(
            agg_of_records(r1),
            agg_of_records(r2p),
            r2.last().0,
            single_model(r2.last().1),
        );
    }
}

/// The number of records carrying `key`.
pub open spec fn occurrences(records: Seq<(Seq<u8>, int)>, key: Seq<u8>) -> int
    decreases records.len(),
{
    if records.len() == 0 {
        0
    } else {
        occurrences(records.drop_last(), key) + if records.last().0 == key {
            1int
        } else {
            0int
        }
    }
}

/// Count conservation, per key: a key's aggregated count is exactly the
/// number of records carrying that key, and a key with no record is absent.
pub proof fn lemma_count_per_key(records: Seq<(Seq<u8>, int)>, key: Seq<u8>)
    ensures
        agg_of_records(records).contains_key(key) ==> agg_of_records(records)[key].count
            == occurrences(records, key),
        !agg_of_records(records).contains_key(key) ==> occurrences(records, key) == 0,
    decreases records.len(),
{
    if records.len() > 0 {
        lemma_count_per_key(records.drop_last(), key);
    }
}

/// One key's exact running aggregate: minimum and maximum in tenths, the
/// exact sum of all folded values, and how many records were folded.
#[derive(Clone, Copy, Debug, PartialEq, Eq, Structural)]
pub struct AggregateState {
    pub min: i64,
    pub max: i64,
    pub sum: i128,
    pub count: u64,
}

impl AggregateState {
    pub open spec fn model(self) -> AggModel {
        AggModel {
            min: self.min as int,
            max: self.max as int,
            sum: self.sum as int,
            count: self.count as int,
        }
    }

    /// At least one record was folded, the extremes do not invert, and the
    /// sum lies between `count * min` and `count * max`.
    pub open spec fn wf(self) -> bool {
        &&& 1 <= self.count
        &&& self.min <= self.max
        &&& self.count * self.min <= self.sum
        &&& self.sum <= self.count * self.max
    }

    /// The state after one observation.
    pub fn single(value: i64) -> (r: Self)
        ensures
            r.wf(),
            r.model() == single_model(value as int),
    {
        let r = AggregateState { min: value, max: value, sum: value as i128, count: 1 };
        assert(r.count * r.min <= r.sum && r.sum <= r.count * r.max);
        r
    }

    /// Fold everything `other` saw into this state.
    pub fn combine_with(&mut self, other: &AggregateState)
        requires
            old(self).wf(),
            other.wf(),
            old(self).count + other.count <= u64::MAX,
        ensures
            final(self).wf(),
            final(self).model() == combine_model(old(self).model(), other.model()),
    {
        proof {
            lemma_state_sum_in_range(*self);
            lemma_state_sum_in_range(*other);
            let c: int = self.count + other.count;
            let b: int = 0x8000_0000_0000_0000;
            assert(c * b <= (u64::MAX as int) * b) by (nonlinear_arith)
                requires
                    0 <= c <= u64::MAX as int,
                    b > 0,
            ;
            assert(-(c * b) <= self.sum + other.sum <= c * b) by (nonlinear_arith)
                requires
                    -((self.count as int) * b) <= self.sum as int <= (self.count as int) * b,
                    -((other.count as int) * b) <= other.sum as int <= (other.count as int) * b,
                    c == self.count + other.count,
            ;
        }
        let new_min: i64 = if other.min < self.min {
            other.min
        } else {
            self.min
        };
        let new_max: i64 = if other.max > self.max {
            other.max
        } else {
            self.max
        };
        let new_sum: i128 = self.sum + other.sum;
        let new_count: u64 = self.count + other.count;
        proof {
            let c1: int = self.count as int;
            let lo1: int = self.min as int;
            let hi1: int = self.max as int;
            let s1: int = self.sum as int;
            let c2: int = other.count as int;
            let lo2: int = other.min as int;
            let hi2: int = other.max as int;
            let s2: int = other.sum as int;
            assert((new_count as int) * (new_min as int) <= new_sum as int && new_sum as int <= (
            new_count as int) * (new_max as int)) by (nonlinear_arith)
                requires
                    c1 * lo1 <= s1,
                    s1 <= c1 * hi1,
                    c2 * lo2 <= s2,
                    s2 <= c2 * hi2,
                    (new_min as int) <= lo1,
                    (new_min as int) <= lo2,
                    (new_max as int) >= hi1,
                    (new_max as int) >= hi2,
                    c1 >= 0,
                    c2 >= 0,
                    new_sum as int == s1 + s2,
                    new_count as int == c1 + c2,
            ;
        }
        self.min = new_min;
        self.max = new_max;
        self.sum = new_sum;
        self.count = new_count;
    }
}

/// A well-formed state's sum is bounded in magnitude by its count times the
/// largest value magnitude.
proof fn lemma_state_sum_in_range(st: AggregateState)
    requires
        st.wf(),
    ensures
        -((st.count as int) * 0x8000_0000_0000_0000) <= st.sum as int,
        st.sum as int <= (st.count as int) * 0x8000_0000_0000_0000,
{
    let b: int = 0x8000_0000_0000_0000;
    assert(-((st.count as int) * b) <= st.sum as int && st.sum as int <= (st.count as int) * b)
        by (nonlinear_arith)
        requires
            (st.count as int) * (st.min as int) <= st.sum as int,
            st.sum as int <= (st.count as int) * (st.max as int),
            -b <= st.min as int,
            (st.max as int) < b,
            (st.count as int) >= 0,
    ;
}

/// Byte-exact equality of two byte strings.
pub fn bytes_eq(a: &[u8], b: &[u8]) -> (r: bool)
    ensures
        r == (a@ == b@),
{
    if a.len() != b.len() {
        return false;
    }
    let n: usize = a.len();
    let mut i: usize = 0;
    while i < n
        invariant
            n == a@.len(),
            a@.len() == b@.len(),
            i <= n,
            forall|j: int| 0 <= j < i ==> a@[j] == b@[j],
        decreases n - i,
    {
        if a[i] != b[i] {
            return false;
        }
        i = i + 1;
    }
    proof {
        assert(a@ =~= b@);
    }
    true
}

/// The mapping an entry list stands for.
pub open spec fn entries_map(s: Seq<(Vec<u8>, AggregateState)>) -> Map<Seq<u8>, AggModel>
    decreases s.len(),
{
    if s.len() == 0 {
        Map::empty()
    } else {
        entries_map(s.drop_last()).insert(s.last().0@, s.last().1.model())
    }
}

/// No two entries carry the same key.
pub open spec fn unique_keys(s: Seq<(Vec<u8>, AggregateState)>) -> bool {
    forall|i: int, j: int| 0 <= i < j < s.len() ==> (#[trigger] s[i]).0@ != (#[trigger] s[j]).0@
}

/// The total record count over an entry list.
pub open spec fn sum_counts(s: Seq<(Vec<u8>, AggregateState)>) -> int
    decreases s.len(),
{
    if s.len() == 0 {
        0
    } else {
        sum_counts(s.drop_last()) + s.last().1.count
    }
}

pub proof fn lemma_entries_map_domain(s: Seq<(Vec<u8>, AggregateState)>, k: Seq<u8>)
    ensures
        entries_map(s).contains_key(k) <==> exists|i: int|
            0 <= i < s.len() && (#[trigger] s[i]).0@ == k,
    decreases s.len(),
{
    if s.len() > 0 {
        lemma_entries_map_domain(s.drop_last(), k);
        if s.last().0@ == k {
            assert(s[s.len() - 1].0@ == k);
        } else {
            if entries_map(s).contains_key(k) {
                let i = choose|i: int| 0 <= i < s.len() - 1 && (#[trigger] s.drop_last()[i]).0@ == k;
                assert(s[i].0@ == k);
            }
            if exists|i: int| 0 <= i < s.len() && (#[trigger] s[i]).0@ == k {
                let i = choose|i: int| 0 <= i < s.len() && (#[trigger] s[i]).0@ == k;
                if i < s.len() - 1 {
                    assert(s.drop_last()[i].0@ == k);
                }
            }
        }
    }
}

pub proof fn lemma_entries_map_index(s: Seq<(Vec<u8>, AggregateState)>, i: int)
    requires
        unique_keys(s),
        0 <= i < s.len(),
    ensures
        entries_map(s).contains_key(s[i].0@),
        entries_map(s)[s[i].0@] == s[i].1.model(),
    decreases s.len(),
{
    if i == s.len() - 1 {
        assert(entries_map(s) == entries_map(s.drop_last()).insert(s.last().0@, s.last().1.model()));
    } else {
        assert(unique_keys(s.drop_last())) by {
            assert(forall|p: int, q: int|
                0 <= p < q < s.len() - 1 ==> (#[trigger] s.drop_last()[p]).0@ != (
                #[trigger] s.drop_last()[q]).0@);
        };
        assert(s.drop_last()[i] == s[i]);
        lemma_entries_map_index(s.drop_last(), i);
        assert(s[i].0@ != s.last().0@);
    }
}

pub proof fn lemma_entries_map_update(
    s: Seq<(Vec<u8>, AggregateState)>,
    i: int,
    key: Vec<u8>,
    st: AggregateState,
)
    requires
        unique_keys(s),
        0 <= i < s.len(),
        key@ == s[i].0@,
    ensures
        entries_map(s.update(i, (key, st))) == entries_map(s).insert(key@, st.model()),
        unique_keys(s.update(i, (key, st))),
        sum_counts(s.update(i, (key, st))) == sum_counts(s) - s[i].1.count + st.count,
    decreases s.len(),
{
    let s2 = s.update(i, (key, st));
    assert(unique_keys(s2)) by {
        assert(forall|p: int| 0 <= p < s2.len() ==> (#[trigger] s2[p]).0@ == s[p].0@);
    };
    if i == s.len() - 1 {
        assert(s2.drop_last() =~= s.drop_last());
        assert(s2.last() == (key, st));
        assert(entries_map(s2) == entries_map(s.drop_last()).insert(key@, st.model()));
        assert(entries_map(s).insert(key@, st.model()) =~= entries_map(s2));
    } else {
        assert(unique_keys(s.drop_last())) by {
            assert(forall|p: int, q: int|
                0 <= p < q < s.len() - 1 ==> (#[trigger] s.drop_last()[p]).0@ != (
                #[trigger] s.drop_last()[q]).0@);
        };
        assert(s.drop_last()[i] == s[i]);
        lemma_entries_map_update(s.drop_last(), i, key, st);
        assert(s2.drop_last() =~= s.drop_last().update(i, (key, st)));
        assert(s2.last() == s.last());
        // The final inserts target distinct keys and commute.
        assert(s[i].0@ != s.last().0@);
        assert(entries_map(s2) =~= entries_map(s).insert(key@, st.model()));
    }
}

pub proof fn lemma_sum_counts_nonneg(s: Seq<(Vec<u8>, AggregateState)>)
    ensures
        sum_counts(s) >= 0,
    decreases s.len(),
{
    if s.len() > 0 {
        lemma_sum_counts_nonneg(s.drop_last());
    }
}

pub proof fn lemma_count_le_sum(s: Seq<(Vec<u8>, AggregateState)>, i: int)
    requires
        0 <= i < s.len(),
    ensures
        s[i].1.count <= sum_counts(s),
    decreases s.len(),
{
    lemma_sum_counts_nonneg(s.drop_last());
    if i == s.len() - 1 {
    } else {
        assert(s.drop_last()[i] == s[i]);
        lemma_count_le_sum(s.drop_last(), i);
    }
}

/// A prefix's total count never exceeds the whole list's.
pub proof fn lemma_sum_counts_take_le(s: Seq<(Vec<u8>, AggregateState)>, j: int)
    requires
        0 <= j <= s.len(),
    ensures
        sum_counts(s.take(j)) <= sum_counts(s),
    decreases s.len() - j,
{
    if j == s.len() {
        assert(s.take(j) =~= s);
    } else {
        assert(s.take(j + 1).drop_last() =~= s.take(j));
        assert(s.take(j + 1).last() == s[j]);
        lemma_sum_counts_take_le(s, j + 1);
    }
}

/// The keys of an entry list, in order.
pub open spec fn keys_of(s: Seq<(Vec<u8>, AggregateState)>) -> Seq<Seq<u8>> {
    s.map_values(|e: (Vec<u8>, AggregateState)| e.0@)
}

/// The key order after folding `records` into a mapping whose keys stand in
/// the order `base`: a new key is appended at its first occurrence.
pub open spec fn keys_after_fold(base: Seq<Seq<u8>>, records: Seq<(Seq<u8>, int)>) -> Seq<Seq<u8>>
    decreases records.len(),
{
    if records.len() == 0 {
        base
    } else {
        let p = keys_after_fold(base, records.drop_last());
        if p.contains(records.last().0) {
            p
        } else {
            p.push(records.last().0)
        }
    }
}

/// The key order after folding a whole entry list, state by state.
pub open spec fn keys_after_entries(
    base: Seq<Seq<u8>>,
    entries: Seq<(Vec<u8>, AggregateState)>,
) -> Seq<Seq<u8>>
    decreases entries.len(),
{
    if entries.len() == 0 {
        base
    } else {
        let p = keys_after_entries(base, entries.drop_last());
        if p.contains(entries.last().0@) {
            p
        } else {
            p.push(entries.last().0@)
        }
    }
}

/// Folding key order is compositional over concatenation.
pub proof fn lemma_keys_after_fold_concat(
    base: Seq<Seq<u8>>,
    r1: Seq<(Seq<u8>, int)>,
    r2: Seq<(Seq<u8>, int)>,
)
    ensures
        keys_after_fold(base, r1 + r2) == keys_after_fold(keys_after_fold(base, r1), r2),
    decreases r2.len(),
{
    if r2.len() == 0 {
        assert(r1 + r2 =~= r1);
    } else {
        lemma_keys_after_fold_concat(base, r1, r2.drop_last());
        assert((r1 + r2).drop_last() =~= r1 + r2.drop_last());
        assert((r1 + r2).last() == r2.last());
    }
}

/// An entry list's mapping holds a key exactly when its key sequence does.
pub proof fn lemma_keys_of_domain(s: Seq<(Vec<u8>, AggregateState)>, k: Seq<u8>)
    ensures
        entries_map(s).contains_key(k) <==> keys_of(s).contains(k),
{
    lemma_entries_map_domain(s, k);
    if entries_map(s).contains_key(k) {
        let i = choose|i: int| 0 <= i < s.len() && (#[trigger] s[i]).0@ == k;
        assert(keys_of(s)[i] == k);
    }
    if keys_of(s).contains(k) {
        let i = choose|i: int| 0 <= i < keys_of(s).len() && keys_of(s)[i] == k;
        assert(s[i].0@ == k);
    }
}

/// A worker's local result: one exact aggregate per distinct key, in order
/// of first occurrence.
pub struct WorkerResult {
    pub entries: Vec<(Vec<u8>, AggregateState)>,
}

impl WorkerResult {
    /// Keys are distinct and every state is well formed.
    pub open spec fn wf(self) -> bool {
        &&& unique_keys(self.entries@)
        &&& forall|i: int| 0 <= i < self.entries@.len() ==> (#[trigger] self.entries@[i]).1.wf()
    }

    /// The mapping this result stands for.
    pub open spec fn as_map(self) -> Map<Seq<u8>, AggModel> {
        entries_map(self.entries@)
    }

    /// The number of records folded into this result.
    pub open spec fn total_count(self) -> int {
        sum_counts(self.entries@)
    }

    /// An empty result.
    pub fn new() -> (r: Self)
        ensures
            r.wf(),
            r.as_map() == Map::<Seq<u8>, AggModel>::empty(),
            r.total_count() == 0,
            r.entries@.len() == 0,
    {
        WorkerResult { entries: Vec::new() }
    }

    /// Index of the entry holding `key`, if any.
    fn position_of_key(&self, key: &[u8]) -> (r: Option<usize>)
        ensures
            (match r {
                Some(i) => i < self.entries@.len() && self.entries@[i as int].0@ == key@,
                None => forall|j: int|
                    0 <= j < self.entries@.len() ==> (#[trigger] self.entries@[j]).0@ != key@,
            }),
    {
        let n: usize = self.entries.len();
        let mut i: usize = 0;
        while i < n
            invariant
                n == self.entries@.len(),
                i <= n,
                forall|j: int| 0 <= j < i ==> (#[trigger] self.entries@[j]).0@ != key@,
            decreases n - i,
        {
            if bytes_eq(self.entries[i].0.as_slice(), key) {
                return Some(i);
            }
            i = i + 1;
        }
        None
    }

    /// Fold one whole state for `key` into this result.
    pub fn absorb(&mut self, key: Vec<u8>, st: AggregateState)
        requires
            old(self).wf(),
            st.wf(),
            old(self).total_count() + st.count <= u64::MAX,
        ensures
            final(self).wf(),
            final(self).as_map() == fold_model(old(self).as_map(), key@, st.model()),
            final(self).total_count() == old(self).total_count() + st.count,
            keys_of(final(self).entries@) == (if old(self).as_map().contains_key(key@) {
                keys_of(old(self).entries@)
            } else {
                keys_of(old(self).entries@).push(key@)
            }),
    {
        let ghost s0 = self.entries@;
        match self.position_of_key(key.as_slice()) {
            Some(i) => {
                proof {
                    lemma_entries_map_index(s0, i as int);
                    lemma_count_le_sum(s0, i as int);
                    lemma_sum_counts_nonneg(s0);
                }
                let mut cur: AggregateState = self.entries[i].1;
                cur.combine_with(&st);
                let e = vstd::std_specs::vec::vec_index_mut(&mut self.entries, i);
                e.1 = cur;
                proof {
                    assert(self.entries@ == s0.update(i as int, ((*e).0, cur)));
                    assert((*e).0@ == key@);
                    lemma_entries_map_update(s0, i as int, (*e).0, cur);
                    assert(entries_map(self.entries@) =~= fold_model(
                        entries_map(s0),
                        key@,
                        st.model(),
                    ));
                    assert(keys_of(self.entries@) =~= keys_of(s0));
                }
            },
            None => {
                proof {
                    lemma_entries_map_domain(s0, key@);
                    assert(!entries_map(s0).contains_key(key@));
                }
                self.entries.push((key, st));
                proof {
                    assert(self.entries@.drop_last() =~= s0);
                    assert(entries_map(self.entries@) == entries_map(s0).insert(
                        self.entries@.last().0@,
                        self.entries@.last().1.model(),
                    ));
                    assert(unique_keys(self.entries@)) by {
                        assert(forall|p: int|
                            0 <= p < s0.len() ==> #[trigger] self.entries@[p] == s0[p]);
                    };
                    assert(keys_of(self.entries@) =~= keys_of(s0).push(key@));
                }
            },
        }
    }

    /// Fold one observation for `key` into this result.
    pub fn add_record(&mut self, key: Vec<u8>, value: i64)
        requires
            old(self).wf(),
            old(self).total_count() + 1 <= u64::MAX,
        ensures
            final(self).wf(),
            final(self).as_map() == fold_model(
                old(self).as_map(),
                key@,
                single_model(value as int),
            ),
            final(self).total_count() == old(self).total_count() + 1,
            keys_of(final(self).entries@) == (if old(self).as_map().contains_key(key@) {
                keys_of(old(self).entries@)
            } else {
                keys_of(old(self).entries@).push(key@)
            }),
    {
        let st = AggregateState::single(value);
        self.absorb(key, st);
    }

    /// Merge another result into this one.  The merged mapping combines the
    /// two mappings pointwise, so the outcome does not depend on the order
    /// in which partial results arrive; the other result's new keys append
    /// in their own order.
    pub fn merge(&mut self, other: &WorkerResult)
        requires
            old(self).wf(),
            other.wf(),
            old(self).total_count() + other.total_count() <= u64::MAX,
        ensures
            final(self).wf(),
            final(self).as_map() == combine_maps(old(self).as_map(), other.as_map()),
            final(self).total_count() == old(self).total_count() + other.total_count(),
            keys_of(final(self).entries@) == keys_after_entries(
                keys_of(old(self).entries@),
                other.entries@,
            ),
    {
        let ghost m0 = self.as_map();
        let ghost t0 = self.total_count();
        let ghost k0 = keys_of(self.entries@);
        let ghost os = other.entries@;
        let n: usize = other.entries.len();
        let mut i: usize = 0;
        proof {
            assert(os.take(0) =~= Seq::<(Vec<u8>, AggregateState)>::empty());
            lemma_sum_counts_nonneg(self.entries@);
        }
        while i < n
            invariant
                i <= n,
                n == os.len(),
                os == other.entries@,
                unique_keys(os),
                forall|j: int| 0 <= j < os.len() ==> (#[trigger] os[j]).1.wf(),
                t0 >= 0,
                t0 + sum_counts(os) <= u64::MAX,
                self.wf(),
                self.as_map() == combine_maps(m0, entries_map(os.take(i as int))),
                self.total_count() == t0 + sum_counts(os.take(i as int)),
                keys_of(self.entries@) == keys_after_entries(k0, os.take(i as int)),
            decreases n - i,
        {
            let ghost prefix = os.take(i as int);
            let ghost prefix1 = os.take(i + 1 as int);
            let e_key = slice_to_vec(other.entries[i].0.as_slice());
            let e_st: AggregateState = other.entries[i].1;
            proof {
                assert(prefix1.drop_last() =~= prefix);
                assert(prefix1.last() == os[i as int]);
                assert(entries_map(prefix1) == entries_map(prefix).insert(
                    os[i as int].0@,
                    os[i as int].1.model(),
                ));
                // The key is new to the processed prefix: keys are unique.
                lemma_entries_map_domain(prefix, e_key@);
                if entries_map(prefix).contains_key(e_key@) {
                    let j = choose|j: int|
                        0 <= j < prefix.len() && (#[trigger] prefix[j]).0@ == e_key@;
                    assert(os[j].0@ == os[i as int].0@);
                    assert(false);
                }
                // Count headroom for this one state.
                lemma_sum_counts_take_le(os, i + 1 as int);
                assert(sum_counts(prefix1) == sum_counts(prefix) + e_st.count);
                lemma_sum_counts_nonneg(prefix);
            }
            let ghost epre = self.entries@;
            let ghost mself = self.as_map();
            let ghost kself = keys_of(self.entries@);
            self.absorb(e_key, e_st);
            proof {
                lemma_combine_fold_step(m0, entries_map(prefix), e_key@, e_st.model());
                assert(fold_model(entries_map(prefix), e_key@, e_st.model()) == entries_map(
                    prefix1,
                ));
                // Key order: the mapping holds the key exactly when the
                // running key order does.
                lemma_keys_of_domain(epre, e_key@);
                assert(keys_after_entries(k0, prefix1) == (if kself.contains(e_key@) {
                    kself
                } else {
                    kself.push(e_key@)
                }));
            }
            i = i + 1;
        }
        proof {
            assert(os.take(n as int) =~= os);
        }
    }
}

} // verus!
