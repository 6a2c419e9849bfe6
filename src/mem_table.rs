//! The memtable: an ordered in-memory map from keys to values, backed by a
//! skip list, with range iterators that see entries inserted after they
//! were created.
use crossbeam_skiplist::SkipMap;
use vstd::prelude::*;

use crate::block::{keys_ascending, MAX_U16};
use crate::key::{compare_keys, lemma_lex_lt_asym, lemma_lex_lt_irrefl, lemma_lex_lt_total, lemma_lex_lt_trans, lex_lt};
use crate::table_builder::{SsTableBuilder, SST_DATA_LIMIT};

verus! {

/// Declares crossbeam's `SkipMap`, an ordered concurrent map, as an opaque
/// type; what it holds is named by `skipmap_contents`.
#[verifier::external_type_specification]
#[verifier::external_body]
#[verifier::reject_recursive_types(K)]
#[verifier::reject_recursive_types(V)]
pub struct ExSkipMap<K, V>(SkipMap<K, V>);

/// A skip map from byte strings to byte strings.
pub type ByteMap = SkipMap<Vec<u8>, Vec<u8>>;

/// What a skip map of byte strings holds.
pub uninterp spec fn skipmap_contents(m: ByteMap) -> Map<Seq<u8>, Seq<u8>>;

/// One end of a key range.
pub enum KeyBound {
    Included(Vec<u8>),
    Excluded(Vec<u8>),
    Unbounded,
}

/// Declares std's `RangeFull` (`..`), which carries no data.
#[verifier::external_type_specification]
#[verifier::external_body]
pub struct ExRangeFull(std::ops::RangeFull);

/// Relies on `RangeInclusive::start`: the start the range was made with.
pub assume_specification<Idx>[ std::ops::RangeInclusive::<Idx>::start ](
    r: &std::ops::RangeInclusive<Idx>,
) -> (ret: &Idx)
    ensures
        *ret == r@.start,
;

/// Relies on `RangeInclusive::end`: the end the range was made with.
pub assume_specification<Idx>[ std::ops::RangeInclusive::<Idx>::end ](
    r: &std::ops::RangeInclusive<Idx>,
) -> (ret: &Idx)
    ensures
        *ret == r@.end,
;

/// A bound as a value: `Some((true, x))` for `Included(x)`,
/// `Some((false, x))` for `Excluded(x)`, `None` for `Unbounded`.
pub open spec fn bound_view(b: KeyBound) -> Option<(bool, Seq<u8>)> {
    match b {
        KeyBound::Included(x) => Some((true, x@)),
        KeyBound::Excluded(x) => Some((false, x@)),
        KeyBound::Unbounded => None,
    }
}

/// Turns a range of keys into its lower and upper bound.
pub trait ToBounds {
    /// The lower and upper bound of the range.
    spec fn bounds_view(&self) -> (Option<(bool, Seq<u8>)>, Option<(bool, Seq<u8>)>);

    fn to_bounds(&self) -> (r: (KeyBound, KeyBound))
        ensures
            bound_view(r.0) == self.bounds_view().0,
            bound_view(r.1) == self.bounds_view().1,
    ;
}

/// All keys: `..`.
impl ToBounds for std::ops::RangeFull {
    open spec fn bounds_view(&self) -> (Option<(bool, Seq<u8>)>, Option<(bool, Seq<u8>)>) {
        (None, None)
    }

    fn to_bounds(&self) -> (r: (KeyBound, KeyBound)) {
        (KeyBound::Unbounded, KeyBound::Unbounded)
    }
}

/// The half-open range `start..end`.
impl<const N: usize> ToBounds for std::ops::Range<&[u8; N]> {
    open spec fn bounds_view(&self) -> (Option<(bool, Seq<u8>)>, Option<(bool, Seq<u8>)>) {
        (Some((true, self.start@)), Some((false, self.end@)))
    }

    fn to_bounds(&self) -> (r: (KeyBound, KeyBound)) {
        let start = vstd::slice::slice_to_vec(vstd::array::array_as_slice(self.start));
        let end = vstd::slice::slice_to_vec(vstd::array::array_as_slice(self.end));
        (KeyBound::Included(start), KeyBound::Excluded(end))
    }
}

/// The closed range `start..=end`.
impl<const N: usize> ToBounds for std::ops::RangeInclusive<&[u8; N]> {
    open spec fn bounds_view(&self) -> (Option<(bool, Seq<u8>)>, Option<(bool, Seq<u8>)>) {
        (Some((true, self@.start@)), Some((true, self@.end@)))
    }

    fn to_bounds(&self) -> (r: (KeyBound, KeyBound)) {
        let start = vstd::slice::slice_to_vec(vstd::array::array_as_slice(*self.start()));
        let end = vstd::slice::slice_to_vec(vstd::array::array_as_slice(*self.end()));
        (KeyBound::Included(start), KeyBound::Included(end))
    }
}

/// `k` lies at or above the lower bound `b`.
pub open spec fn above_lower(k: Seq<u8>, b: KeyBound) -> bool {
    match b {
        KeyBound::Included(x) => !lex_lt(k, x@),
        KeyBound::Excluded(x) => lex_lt(x@, k),
        KeyBound::Unbounded => true,
    }
}

/// `k` lies at or below the upper bound `b`.
pub open spec fn below_upper(k: Seq<u8>, b: KeyBound) -> bool {
    match b {
        KeyBound::Included(x) => !lex_lt(x@, k),
        KeyBound::Excluded(x) => lex_lt(k, x@),
        KeyBound::Unbounded => true,
    }
}

/// `k` is the least key of `m` above the lower bound `b`.
pub open spec fn least_above(m: Map<Seq<u8>, Seq<u8>>, b: KeyBound, k: Seq<u8>) -> bool {
    &&& m.contains_key(k)
    &&& above_lower(k, b)
    &&& forall|j: Seq<u8>| #[trigger] m.contains_key(j) && above_lower(j, b) ==> !lex_lt(j, k)
}

/// Relies on `SkipMap::new`: the new map is empty.
#[verifier::external_body]
fn skipmap_new() -> (r: ByteMap)
    ensures
        skipmap_contents(r).dom() == Set::<Seq<u8>>::empty(),
{
    SkipMap::new()
}

/// Relies on `SkipMap::insert`: the key is bound to the value, replacing an
/// earlier binding; no other key changes.
#[verifier::external_body]
fn skipmap_insert(m: &mut ByteMap, key: Vec<u8>, value: Vec<u8>)
    ensures
        skipmap_contents(*final(m)) == skipmap_contents(*old(m)).insert(key@, value@),
{
    m.insert(key, value);
}

/// Relies on `SkipMap::get`: the value bound to the key, if any.
#[verifier::external_body]
fn skipmap_get(m: &ByteMap, key: &[u8]) -> (r: Option<Vec<u8>>)
    ensures
        r.is_some() == skipmap_contents(*m).contains_key(key@),
        r.is_some() ==> r.unwrap()@ == skipmap_contents(*m)[key@],
{
    m.get(key).map(|e| e.value().clone())
}

/// Relies on `SkipMap::lower_bound`: the entry with the lowest key above the
/// bound, if any, in the byte order of keys.
#[verifier::external_body]
fn skipmap_lower_bound(m: &ByteMap, b: &KeyBound) -> (r: Option<(Vec<u8>, Vec<u8>)>)
    ensures
        r.is_none() == (forall|k: Seq<u8>| #[trigger] skipmap_contents(*m).contains_key(k)
            ==> !above_lower(k, *b)),
        r.is_some() ==> least_above(skipmap_contents(*m), *b, r.unwrap().0@) && r.unwrap().1@
            == skipmap_contents(*m)[r.unwrap().0@],
{
    let bound = match b {
        KeyBound::Included(x) => std::ops::Bound::Included(x.as_slice()),
        KeyBound::Excluded(x) => std::ops::Bound::Excluded(x.as_slice()),
        KeyBound::Unbounded => std::ops::Bound::Unbounded,
    };
    m.lower_bound(bound).map(|e| (e.key().clone(), e.value().clone()))
}

/// Relies on `SkipMap::is_empty`: whether the map holds no entry.
#[verifier::external_body]
fn skipmap_is_empty(m: &ByteMap) -> (r: bool)
    ensures
        r == (skipmap_contents(*m).dom() == Set::<Seq<u8>>::empty()),
{
    m.is_empty()
}

/// An in-memory, ordered key-value buffer.
pub struct MemTable {
    map: ByteMap,
    id: usize,
    approximate_size: usize,
}

impl MemTable {
    /// The bindings the memtable holds.
    pub closed spec fn contents(&self) -> Map<Seq<u8>, Seq<u8>> {
        skipmap_contents(self.map)
    }

    pub closed spec fn id_spec(&self) -> usize {
        self.id
    }

    /// Finitely many keys are held, and every one is non-empty.
    pub open spec fn wf(&self) -> bool {
        &&& self.contents().dom().finite()
        &&& forall|k: Seq<u8>| #[trigger] self.contents().contains_key(k) ==> k.len() > 0
    }

    /// The running size estimate: the bytes of every key and value put.
    pub closed spec fn size_spec(&self) -> usize {
        self.approximate_size
    }

    /// Create a new, empty mem-table.
    pub fn create(id: usize) -> (r: Self)
        ensures
            r.wf(),
            r.contents().dom() == Set::<Seq<u8>>::empty(),
            r.id_spec() == id,
            r.size_spec() == 0,
    {
        MemTable { map: skipmap_new(), id, approximate_size: 0 }
    }

    /// Get the value bound to a key.
    pub fn get(&self, key: &[u8]) -> (r: Option<Vec<u8>>)
        ensures
            r.is_some() == self.contents().contains_key(key@),
            r.is_some() ==> r.unwrap()@ == self.contents()[key@],
    {
        skipmap_get(&self.map, key)
    }

    /// Put a key-value pair, replacing an earlier value of the key. The size
    /// estimate grows by the lengths of both, overwrite or not, and stops at
    /// the largest `usize`.
    pub fn put(&mut self, key: &[u8], value: &[u8])
        requires
            old(self).wf(),
            key@.len() > 0,
        ensures
            final(self).wf(),
            final(self).contents() == old(self).contents().insert(key@, value@),
            final(self).id_spec() == old(self).id_spec(),
            final(self).size_spec() == if old(self).size_spec() + key@.len() + value@.len()
                > usize::MAX {
                usize::MAX as int
            } else {
                old(self).size_spec() + key@.len() + value@.len()
            },
    {
        let k = vstd::slice::slice_to_vec(key);
        let v = vstd::slice::slice_to_vec(value);
        skipmap_insert(&mut self.map, k, v);
        let added = key.len().saturating_add(value.len());
        self.approximate_size = self.approximate_size.saturating_add(added);
        assert forall|j: Seq<u8>| #[trigger] self.contents().contains_key(j) implies j.len() > 0 by {
            if j != key@ {
                assert(old(self).contents().contains_key(j) && j.len() > 0);
            }
        }
    }

    pub fn for_testing_put_slice(&mut self, key: &[u8], value: &[u8])
        requires
            old(self).wf(),
            key@.len() > 0,
        ensures
            final(self).wf(),
            final(self).contents() == old(self).contents().insert(key@, value@),
            final(self).id_spec() == old(self).id_spec(),
            final(self).size_spec() == if old(self).size_spec() + key@.len() + value@.len()
                > usize::MAX {
                usize::MAX as int
            } else {
                old(self).size_spec() + key@.len() + value@.len()
            },
    {
        self.put(key, value)
    }

    pub fn for_testing_get_slice(&self, key: &[u8]) -> (r: Option<Vec<u8>>)
        ensures
            r.is_some() == self.contents().contains_key(key@),
            r.is_some() ==> r.unwrap()@ == self.contents()[key@],
    {
        self.get(key)
    }

    /// An iterator over the keys between `lower` and `upper`, positioned at
    /// the first of them.
    pub fn scan(&self, lower: KeyBound, upper: KeyBound) -> (r: MemTableIterator)
        requires
            self.wf(),
        ensures
            r.wf(),
            !r.valid() ==> r.position() == None::<Seq<u8>>,
            r.valid() ==> r.position() == Some(r.key_view()),
            r.lower_bound() == lower,
            r.upper_bound() == upper,
            r.valid() ==> least_above(self.contents(), lower, r.key_view()) && below_upper(
                r.key_view(),
                upper,
            ) && r.value_view() == self.contents()[r.key_view()],
            !r.valid() ==> forall|k: Seq<u8>| #[trigger]
                self.contents().contains_key(k) && above_lower(k, lower) ==> !below_upper(
                    k,
                    upper,
                ),
    {
        let mut iter = MemTableIterator {
            lower,
            upper,
            last: None,
            item: (Vec::new(), Vec::new()),
        };
        iter.next(self);
        iter
    }

    pub fn for_testing_scan_slice(&self, lower: KeyBound, upper: KeyBound) -> (r: MemTableIterator)
        requires
            self.wf(),
        ensures
            r.wf(),
            r.valid() ==> r.position() == Some(r.key_view()),
            r.lower_bound() == lower,
            r.upper_bound() == upper,
            r.valid() ==> least_above(self.contents(), lower, r.key_view()) && below_upper(
                r.key_view(),
                upper,
            ) && r.value_view() == self.contents()[r.key_view()],
            !r.valid() ==> forall|k: Seq<u8>| #[trigger]
                self.contents().contains_key(k) && above_lower(k, lower) ==> !below_upper(
                    k,
                    upper,
                ),
    {
        self.scan(lower, upper)
    }

    /// Adds every entry to `builder`, in ascending key order. Stops with
    /// an error at an entry that a table cannot hold, or when the table
    /// has reached its size limit.
    pub fn flush(&self, builder: &mut SsTableBuilder) -> (r: Result<(), FlushError>)
        requires
            self.wf(),
            old(builder).wf(),
        ensures
            final(builder).wf(),
            final(builder).target_size() == old(builder).target_size(),
            final(builder).pairs().len() >= old(builder).pairs().len(),
            final(builder).pairs().subrange(0, old(builder).pairs().len() as int) == old(
                builder,
            ).pairs(),
            key_order_prefix(
                self.contents(),
                final(builder).pairs().subrange(
                    old(builder).pairs().len() as int,
                    final(builder).pairs().len() as int,
                ),
            ),
            r.is_ok() ==> in_key_order(
                self.contents(),
                final(builder).pairs().subrange(
                    old(builder).pairs().len() as int,
                    final(builder).pairs().len() as int,
                ),
            ),
            r == Err::<(), FlushError>(FlushError::EntryTooLarge) ==> exists|k: Seq<u8>|
                #[trigger] self.contents().contains_key(k) && !entry_fits(self.contents(), k),
            r == Err::<(), FlushError>(FlushError::TableTooLarge) ==> final(builder).sealed_size()
                > SST_DATA_LIMIT,
    {
        let ghost m = self.contents();
        let ghost start = builder.pairs();
        let ghost mut added: Seq<(Seq<u8>, Seq<u8>)> = Seq::empty();
        let mut iter = self.scan(KeyBound::Unbounded, KeyBound::Unbounded);
        while iter.is_valid()
            invariant
                self.wf(),
                m == self.contents(),
                builder.wf(),
                builder.target_size() == old(builder).target_size(),
                start == old(builder).pairs(),
                builder.pairs() == start + added,
                iter.wf(),
                iter.lower_bound() == KeyBound::Unbounded,
                iter.upper_bound() == KeyBound::Unbounded,
                iter.valid() ==> {
                    let k = iter.key_view();
                    &&& m.contains_key(k)
                    &&& iter.value_view() == m[k]
                    &&& follows(last_key_of(added), KeyBound::Unbounded, k)
                    &&& forall|j: Seq<u8>| #[trigger]
                        m.contains_key(j) && follows(last_key_of(added), KeyBound::Unbounded, j)
                            ==> !lex_lt(j, k)
                },
                !iter.valid() ==> iter.position() == last_key_of(added) && forall|j: Seq<u8>|
                    #[trigger] m.contains_key(j) ==> !follows(
                        last_key_of(added),
                        KeyBound::Unbounded,
                        j,
                    ),
                keys_ascending(added),
                forall|i: int|
                    0 <= i < added.len() ==> #[trigger] m.contains_key(added[i].0) && m[added[i].0]
                        == added[i].1,
                forall|k: Seq<u8>| #[trigger]
                    m.contains_key(k) && !follows(last_key_of(added), KeyBound::Unbounded, k)
                        ==> exists|i: int| 0 <= i < added.len() && added[i].0 == k,
            decreases remaining(m, last_key_of(added)).len(),
        {
            let ghost prev = last_key_of(added);
            let k = iter.key();
            let v = iter.value();
            if k.len() > MAX_U16 || v.len() > MAX_U16 {
                proof {
                    assert(self.contents().contains_key(k@) && !entry_fits(self.contents(), k@));
                    assert(builder.pairs().subrange(0, start.len() as int) =~= start);
                    assert(builder.pairs().subrange(start.len() as int, builder.pairs().len() as int)
                        =~= added);
                    lemma_visited_prefix(m, added);
                }
                return Err(FlushError::EntryTooLarge);
            }
            if builder.estimated_size() > SST_DATA_LIMIT {
                proof {
                    assert(builder.pairs().subrange(0, start.len() as int) =~= start);
                    assert(builder.pairs().subrange(start.len() as int, builder.pairs().len() as int)
                        =~= added);
                    lemma_visited_prefix(m, added);
                }
                return Err(FlushError::TableTooLarge);
            }
            builder.add(k, v);
            proof {
                lemma_remaining_shrinks(m, prev, k@);
                let nadded = added.push((k@, v@));
                assert(last_key_of(nadded) == Some(k@));
                assert forall|i: int, j: int| 0 <= i < j < nadded.len() implies lex_lt(
                    #[trigger] nadded[i].0,
                    #[trigger] nadded[j].0,
                ) by {
                    if j == added.len() && i < added.len() - 1 {
                        assert(lex_lt(added[i].0, added.last().0));
                        lemma_lex_lt_trans(added[i].0, added.last().0, k@);
                    }
                }
                assert forall|q: Seq<u8>| #[trigger]
                    m.contains_key(q) && !follows(Some(k@), KeyBound::Unbounded, q) implies exists|
                    i: int,
                | 0 <= i < nadded.len() && nadded[i].0 == q by {
                    if q == k@ {
                        assert(nadded[added.len() as int].0 == q);
                    } else if follows(prev, KeyBound::Unbounded, q) {
                        lemma_lex_lt_total(q, k@);
                    } else {
                        let i = choose|i: int| 0 <= i < added.len() && added[i].0 == q;
                        assert(nadded[i].0 == q);
                    }
                }
                assert forall|i: int| 0 <= i < nadded.len() implies #[trigger] m.contains_key(
                    nadded[i].0,
                ) && m[nadded[i].0] == nadded[i].1 by {
                    if i < added.len() {
                        assert(nadded[i] == added[i]);
                    }
                }
                assert(builder.pairs() =~= start + nadded);
                added = nadded;
            }
            iter.next(self);
        }
        proof {
            let f = builder.pairs();
            assert(f.subrange(0, start.len() as int) =~= start);
            assert(f.subrange(start.len() as int, f.len() as int) =~= added);
            lemma_visited_prefix(m, added);
            assert forall|k: Seq<u8>| #[trigger] m.contains_key(k) implies exists|i: int|
                0 <= i < added.len() && added[i].0 == k by {
                assert(!follows(last_key_of(added), KeyBound::Unbounded, k));
            }
        }
        Ok(())
    }

    /// An iterator over the keys of `range`, positioned at the first of them.
    pub fn scan_range<R: ToBounds>(&self, range: R) -> (r: MemTableIterator)
        requires
            self.wf(),
        ensures
            r.wf(),
            bound_view(r.lower_bound()) == range.bounds_view().0,
            bound_view(r.upper_bound()) == range.bounds_view().1,
            r.valid() ==> r.position() == Some(r.key_view()),
            r.valid() ==> least_above(self.contents(), r.lower_bound(), r.key_view())
                && below_upper(r.key_view(), r.upper_bound()) && r.value_view()
                == self.contents()[r.key_view()],
            !r.valid() ==> forall|k: Seq<u8>| #[trigger]
                self.contents().contains_key(k) && above_lower(k, r.lower_bound()) ==> !below_upper(
                    k,
                    r.upper_bound(),
                ),
    {
        let (lower, upper) = range.to_bounds();
        self.scan(lower, upper)
    }

    pub fn for_testing_scan_range_slice<R: ToBounds>(&self, range: R) -> (r: MemTableIterator)
        requires
            self.wf(),
        ensures
            r.wf(),
            bound_view(r.lower_bound()) == range.bounds_view().0,
            bound_view(r.upper_bound()) == range.bounds_view().1,
            r.valid() ==> r.position() == Some(r.key_view()),
            r.valid() ==> least_above(self.contents(), r.lower_bound(), r.key_view())
                && below_upper(r.key_view(), r.upper_bound()) && r.value_view()
                == self.contents()[r.key_view()],
            !r.valid() ==> forall|k: Seq<u8>| #[trigger]
                self.contents().contains_key(k) && above_lower(k, r.lower_bound()) ==> !below_upper(
                    k,
                    r.upper_bound(),
                ),
    {
        self.scan_range(range)
    }

    pub fn id(&self) -> (r: usize)
        ensures
            r == self.id_spec(),
    {
        self.id
    }

    pub fn approximate_size(&self) -> (r: usize)
        ensures
            r == self.size_spec(),
    {
        self.approximate_size
    }

    pub fn is_empty(&self) -> (r: bool)
        ensures
            r == (self.contents().dom() == Set::<Seq<u8>>::empty()),
    {
        skipmap_is_empty(&self.map)
    }
}

/// Why a flush stopped.
pub enum FlushError {
    /// An entry whose key or value is longer than a block can record.
    EntryTooLarge,
    /// The table reached the size that its offsets can address.
    TableTooLarge,
}

/// The entry of `k` in `m` fits a block.
pub open spec fn entry_fits(m: Map<Seq<u8>, Seq<u8>>, k: Seq<u8>) -> bool {
    k.len() <= MAX_U16 && m[k].len() <= MAX_U16
}

/// `s` lists the entries of `m`, each once, in ascending key order.
pub open spec fn in_key_order(m: Map<Seq<u8>, Seq<u8>>, s: Seq<(Seq<u8>, Seq<u8>)>) -> bool {
    &&& keys_ascending(s)
    &&& forall|i: int| 0 <= i < s.len() ==> #[trigger] m.contains_key(s[i].0) && m[s[i].0] == s[i].1
    &&& forall|k: Seq<u8>| #[trigger] m.contains_key(k) ==> exists|i: int| 0 <= i < s.len() && s[i].0 == k
}

/// `s` lists, in ascending key order, the entries of `m` up to its last
/// key: a prefix of all entries of `m` in key order.
pub open spec fn key_order_prefix(m: Map<Seq<u8>, Seq<u8>>, s: Seq<(Seq<u8>, Seq<u8>)>) -> bool {
    &&& keys_ascending(s)
    &&& forall|i: int| 0 <= i < s.len() ==> #[trigger] m.contains_key(s[i].0) && m[s[i].0] == s[i].1
    &&& forall|k: Seq<u8>, i: int|
        0 <= i < s.len() && #[trigger] m.contains_key(k) && lex_lt(k, #[trigger] s[i].0) ==> exists|
            j: int,
        | 0 <= j < s.len() && s[j].0 == k
}

/// Entries visited in ascending order, with every key not after the last
/// one visited among them, form a prefix of the entries in key order.
proof fn lemma_visited_prefix(m: Map<Seq<u8>, Seq<u8>>, s: Seq<(Seq<u8>, Seq<u8>)>)
    requires
        keys_ascending(s),
        forall|i: int| 0 <= i < s.len() ==> #[trigger] m.contains_key(s[i].0) && m[s[i].0] == s[i].1,
        forall|k: Seq<u8>| #[trigger]
            m.contains_key(k) && !follows(last_key_of(s), KeyBound::Unbounded, k) ==> exists|i: int|
                0 <= i < s.len() && s[i].0 == k,
    ensures
        key_order_prefix(m, s),
{
    assert forall|k: Seq<u8>, i: int|
        0 <= i < s.len() && #[trigger] m.contains_key(k) && lex_lt(k, #[trigger] s[i].0) implies exists|
        j: int,
    | 0 <= j < s.len() && s[j].0 == k by {
        let l = s.last().0;
        if i < s.len() - 1 {
            assert(lex_lt(s[i].0, s[s.len() - 1].0));
            lemma_lex_lt_trans(k, s[i].0, l);
        }
        lemma_lex_lt_asym(k, l);
        assert(!follows(last_key_of(s), KeyBound::Unbounded, k));
    }
}

/// The last key of a list of pairs, if any.
pub open spec fn last_key_of(s: Seq<(Seq<u8>, Seq<u8>)>) -> Option<Seq<u8>> {
    if s.len() == 0 {
        None
    } else {
        Some(s.last().0)
    }
}

/// The keys of `m` that come after the position `pos`.
pub open spec fn remaining(m: Map<Seq<u8>, Seq<u8>>, pos: Option<Seq<u8>>) -> Set<Seq<u8>> {
    m.dom().filter(|k: Seq<u8>| follows(pos, KeyBound::Unbounded, k))
}

/// Moving the position to the least key after it leaves fewer keys ahead.
proof fn lemma_remaining_shrinks(m: Map<Seq<u8>, Seq<u8>>, pos: Option<Seq<u8>>, k: Seq<u8>)
    requires
        m.dom().finite(),
        m.contains_key(k),
        follows(pos, KeyBound::Unbounded, k),
    ensures
        remaining(m, Some(k)).len() < remaining(m, pos).len(),
{
    let r = remaining(m, pos);
    let r2 = remaining(m, Some(k));
    m.dom().lemma_len_filter(|q: Seq<u8>| follows(pos, KeyBound::Unbounded, q));
    m.dom().lemma_len_filter(|q: Seq<u8>| follows(Some(k), KeyBound::Unbounded, q));
    assert forall|q: Seq<u8>| #[trigger] r2.insert(k).contains(q) implies r.contains(q) by {
        if q != k {
            if let Some(l) = pos {
                lemma_lex_lt_trans(l, k, q);
            }
        }
    }
    lemma_lex_lt_irrefl(k);
    assert(!r2.contains(k));
    vstd::set_lib::lemma_len_subset(r2.insert(k), r);
}

/// After two puts of one key, the key is bound to the second value:
/// `t1` is `t0` after `put(k, v1)`, and `t2` is `t1` after `put(k, v2)`.
pub proof fn lemma_last_writer_wins(
    t0: MemTable,
    t1: MemTable,
    t2: MemTable,
    k: Seq<u8>,
    v1: Seq<u8>,
    v2: Seq<u8>,
)
    requires
        t1.contents() == t0.contents().insert(k, v1),
        t2.contents() == t1.contents().insert(k, v2),
    ensures
        t2.contents().contains_key(k),
        t2.contents()[k] == v2,
{
}

/// The size estimate never goes down across a put: `t1` is `t0` after
/// `put(k, v)`.
pub proof fn lemma_size_monotone(t0: MemTable, t1: MemTable, k: Seq<u8>, v: Seq<u8>)
    requires
        t1.size_spec() == if t0.size_spec() + k.len() + v.len() > usize::MAX {
            usize::MAX as int
        } else {
            t0.size_spec() + k.len() + v.len()
        },
    ensures
        t0.size_spec() <= t1.size_spec(),
{
}

/// A range iterator over a memtable. It keeps its own copy of the current
/// entry and looks the next one up in the memtable on each step, so entries
/// put after it was made are seen.
pub struct MemTableIterator {
    lower: KeyBound,
    upper: KeyBound,
    /// The last key yielded, if any.
    last: Option<Vec<u8>>,
    /// The current entry; an empty key marks an invalid iterator.
    item: (Vec<u8>, Vec<u8>),
}

/// `k` comes after the position `last`, in a range with lower bound `lower`.
pub open spec fn follows(last: Option<Seq<u8>>, lower: KeyBound, k: Seq<u8>) -> bool {
    match last {
        Some(l) => lex_lt(l, k),
        None => above_lower(k, lower),
    }
}

impl MemTableIterator {
    pub closed spec fn lower_bound(&self) -> KeyBound {
        self.lower
    }

    pub closed spec fn upper_bound(&self) -> KeyBound {
        self.upper
    }

    /// The last key yielded, if any.
    pub closed spec fn position(&self) -> Option<Seq<u8>> {
        match self.last {
            Some(l) => Some(l@),
            None => None,
        }
    }

    pub closed spec fn valid(&self) -> bool {
        self.item.0@.len() > 0
    }

    pub closed spec fn key_view(&self) -> Seq<u8> {
        self.item.0@
    }

    pub closed spec fn value_view(&self) -> Seq<u8> {
        self.item.1@
    }

    pub closed spec fn wf(&self) -> bool {
        self.item.0@.len() > 0 ==> self.position() == Some(self.item.0@)
    }

    /// Returns the key of the current entry.
    pub fn key(&self) -> (r: &[u8])
        ensures
            r@ == self.key_view(),
    {
        self.item.0.as_slice()
    }

    /// Returns the value of the current entry.
    pub fn value(&self) -> (r: &[u8])
        ensures
            r@ == self.value_view(),
    {
        self.item.1.as_slice()
    }

    /// Returns true if the iterator stands on an entry.
    pub fn is_valid(&self) -> (r: bool)
        ensures
            r == self.valid(),
    {
        self.item.0.len() > 0
    }

    /// Moves to the least key of `table` in range after the last key
    /// yielded, or becomes invalid when there is none; a later call sees
    /// keys put in the meantime.
    pub fn next(&mut self, table: &MemTable)
        requires
            old(self).wf(),
            table.wf(),
        ensures
            final(self).wf(),
            final(self).valid() ==> final(self).position() == Some(final(self).key_view()),
            final(self).lower_bound() == old(self).lower_bound(),
            final(self).upper_bound() == old(self).upper_bound(),
            final(self).valid() ==> {
                let k = final(self).key_view();
                &&& table.contents().contains_key(k)
                &&& final(self).value_view() == table.contents()[k]
                &&& follows(old(self).position(), old(self).lower_bound(), k)
                &&& below_upper(k, old(self).upper_bound())
                &&& forall|j: Seq<u8>| #[trigger]
                    table.contents().contains_key(j) && follows(
                        old(self).position(),
                        old(self).lower_bound(),
                        j,
                    ) ==> !lex_lt(j, k)
            },
            !final(self).valid() ==> final(self).position() == old(self).position() && forall|
                j: Seq<u8>,
            | #[trigger]
                table.contents().contains_key(j) && follows(
                    old(self).position(),
                    old(self).lower_bound(),
                    j,
                ) ==> !below_upper(j, old(self).upper_bound()),
            old(self).valid() && final(self).valid() ==> lex_lt(
                old(self).key_view(),
                final(self).key_view(),
            ),
    {
        let ghost m = table.contents();
        let ghost pos = self.position();
        let found = match &self.last {
            Some(l) => {
                let b = KeyBound::Excluded(vstd::slice::slice_to_vec(l.as_slice()));
                let r = skipmap_lower_bound(&table.map, &b);
                proof {
                    assert forall|j: Seq<u8>| #[trigger] above_lower(j, b) == follows(
                        pos,
                        self.lower,
                        j,
                    ) by {
                    }
                }
                r
            },
            None => {
                let r = skipmap_lower_bound(&table.map, &self.lower);
                r
            },
        };
        match found {
            Some((k, v)) => {
                if self.in_upper(k.as_slice()) {
                    self.last = Some(vstd::slice::slice_to_vec(k.as_slice()));
                    self.item = (k, v);
                } else {
                    self.item = (Vec::new(), Vec::new());
                    proof {
                        assert forall|j: Seq<u8>| #[trigger]
                            m.contains_key(j) && follows(pos, self.lower, j) implies !below_upper(
                            j,
                            self.upper,
                        ) by {
                            if lex_lt(k@, j) {
                                lemma_upper_monotone(k@, j, self.upper);
                            } else {
                                assert(!lex_lt(j, k@));
                                lemma_lex_lt_total(j, k@);
                            }
                        }
                    }
                }
            },
            None => {
                self.item = (Vec::new(), Vec::new());
            },
        }
    }

    fn in_upper(&self, k: &[u8]) -> (r: bool)
        ensures
            r == below_upper(k@, self.upper),
    {
        match &self.upper {
            KeyBound::Included(x) => compare_keys(k, x.as_slice()) <= 0,
            KeyBound::Excluded(x) => compare_keys(k, x.as_slice()) < 0,
            KeyBound::Unbounded => true,
        }
    }
}

/// Outside the upper bound stays outside for larger keys.
proof fn lemma_upper_monotone(a: Seq<u8>, b: Seq<u8>, u: KeyBound)
    requires
        lex_lt(a, b),
        !below_upper(a, u),
    ensures
        !below_upper(b, u),
{
    match u {
        KeyBound::Included(x) => {
            lemma_lex_lt_trans(x@, a, b);
        },
        KeyBound::Excluded(x) => {
            if lex_lt(b, x@) {
                lemma_lex_lt_trans(a, b, x@);
            }
        },
        KeyBound::Unbounded => {},
    }
}

} // verus!
