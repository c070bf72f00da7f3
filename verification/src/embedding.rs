//! Record model, store capability contract, and the in-memory vector store.
//!
//! A [`DataEntry`] is one stored record: a unique identifier assigned by the
//! store, a caller-supplied name, a fixed-point feature vector, and free-form
//! description strings. [`InMemoryVectorStore`] owns a growable collection of
//! records plus immutable ranking configuration, assigns identifiers from a
//! strictly monotonic counter — never from the current record count, whose
//! numbering can collide with a surviving record after deletions, and never
//! reusing a freed identifier — and wires the exact ranking engine of
//! [`crate::ranking`] to `search`.

use vstd::prelude::*;

use crate::ranking::{
    score_le, score_eq, MAX_DIMENSIONS, sim_num, sim_den_pair, Similarity, similarity,
    score_le_exec, lemma_score_le_total, lemma_score_le_trans, lemma_exact_match_score_maximal,
};

verus! {

/// Error variants related to store operations.
#[derive(Debug, Clone, Copy, PartialEq, Eq, Structural)]
pub enum DataEntryErrors {
    /// No data entry was found for the given criteria.
    NoDataWasFound,
    /// A vector's length does not match the store's configured dimensionality.
    DimensionMismatch,
    /// A persisted snapshot could not be decoded.
    MalformedSnapshot,
}

impl DataEntryErrors {
    /// Human-readable description of the error.
    pub fn message(&self) -> (r: &'static str)
        ensures
            *self is NoDataWasFound ==> r@ == "No data entry was found!"@,
            *self is DimensionMismatch ==> r@ == "Vector length does not match the store dimensionality!"@,
            *self is MalformedSnapshot ==> r@ == "Malformed snapshot document!"@,
    {
        match self {
            Self::NoDataWasFound => "No data entry was found!",
            Self::DimensionMismatch => "Vector length does not match the store dimensionality!",
            Self::MalformedSnapshot => "Malformed snapshot document!",
        }
    }
}

/// Represents a single data entry in the vector store.
#[derive(Debug, Clone, PartialEq)]
pub struct DataEntry {
    /// Unique identifier for the data entry.
    pub id: usize,
    /// Name associated with the data entry.
    pub name: String,
    /// Fixed-point vector representation of the data.
    pub vector: Vec<i16>,
    /// List of descriptions associated with the data.
    pub descriptions: Vec<String>,
}

/// Mathematical model of a [`DataEntry`].
pub ghost struct DataEntryView {
    pub id: int,
    pub name: Seq<char>,
    pub vector: Seq<i16>,
    pub descriptions: Seq<Seq<char>>,
}

impl View for DataEntry {
    type V = DataEntryView;

    open spec fn view(&self) -> DataEntryView {
        DataEntryView {
            id: self.id as int,
            name: self.name@,
            vector: self.vector@,
            descriptions: self.descriptions.deep_view(),
        }
    }
}

/// Views of a sequence of entries.
pub open spec fn views_of(s: Seq<DataEntry>) -> Seq<DataEntryView> {
    s.map_values(|e: DataEntry| e@)
}

fn clone_i16_vec(v: &Vec<i16>) -> (r: Vec<i16>)
    ensures
        r@ == v@,
{
    let mut r: Vec<i16> = Vec::new();
    for i in 0..v.len()
        invariant
            r@ == v@.take(i as int),
    {
        r.push(v[i]);
        proof {
            assert(r@ =~= v@.take(i + 1));
        }
    }
    proof {
        assert(r@ =~= v@);
    }
    r
}

fn clone_string_vec(v: &Vec<String>) -> (r: Vec<String>)
    ensures
        r.deep_view() == v.deep_view(),
{
    let mut r: Vec<String> = Vec::new();
    for i in 0..v.len()
        invariant
            r@.len() == i,
            forall|k: int| 0 <= k < i ==> (#[trigger] r@[k])@ == v@[k]@,
    {
        r.push(v[i].clone());
    }
    proof {
        assert(r.deep_view() =~~= v.deep_view());
    }
    r
}

impl DataEntry {
    /// Field-for-field copy, with a contract (the derived `Clone` carries none).
    pub fn duplicate(&self) -> (r: DataEntry)
        ensures
            r@ == self@,
    {
        let r = DataEntry {
            id: self.id,
            name: self.name.clone(),
            vector: clone_i16_vec(&self.vector),
            descriptions: clone_string_vec(&self.descriptions),
        };
        proof {
            assert(r@.descriptions =~~= self@.descriptions);
        }
        r
    }
}

/// Some entry of `s` carries identifier `id`.
pub open spec fn contains_id(s: Seq<DataEntryView>, id: int) -> bool {
    exists|i: int| 0 <= i < s.len() && s[i].id == id
}

/// The index of the entry carrying `id` (unique when identifiers are unique).
pub open spec fn index_of_id(s: Seq<DataEntryView>, id: int) -> int {
    choose|i: int| 0 <= i < s.len() && s[i].id == id
}

/// Identifiers are pairwise distinct.
pub open spec fn unique_ids(s: Seq<DataEntryView>) -> bool {
    forall|i: int, j: int| 0 <= i < j < s.len() ==> s[i].id != s[j].id
}

proof fn lemma_wf_remove(v: StoreView, i: int)
    requires
        v.wf(),
        0 <= i < v.entries.len(),
    ensures
        (StoreView { entries: v.entries.remove(i), ..v }).wf(),
{
    let s = v.entries;
    let t = s.remove(i);
    assert(forall|k: int|
        0 <= k < t.len() ==> #[trigger] t[k] == (if k < i {
            s[k]
        } else {
            s[k + 1]
        }));
}

proof fn lemma_wf_update(v: StoreView, i: int, e: DataEntryView)
    requires
        v.wf(),
        0 <= i < v.entries.len(),
        e.id == v.entries[i].id,
        e.vector.len() == v.dimensions,
    ensures
        (StoreView { entries: v.entries.update(i, e), ..v }).wf(),
{
}

/// Mathematical model of an [`InMemoryVectorStore`].
pub ghost struct StoreView {
    pub entries: Seq<DataEntryView>,
    pub prompt_annotations: Seq<Seq<char>>,
    pub prompts: Seq<Seq<char>>,
    pub prompt_size: int,
    pub dimensions: int,
    pub next_id: int,
}

impl StoreView {
    /// Well-formedness: the dimensionality is within the exact-arithmetic
    /// bound, every stored vector has exactly that length, identifiers are
    /// pairwise distinct and all below the monotonic counter.
    pub open spec fn wf(self) -> bool {
        &&& 0 <= self.dimensions <= MAX_DIMENSIONS
        &&& 1 <= self.next_id
        &&& forall|i: int|
            0 <= i < self.entries.len() ==> (#[trigger] self.entries[i]).vector.len()
                == self.dimensions
        &&& forall|i: int|
            0 <= i < self.entries.len() ==> 1 <= (#[trigger] self.entries[i]).id < self.next_id
        &&& unique_ids(self.entries)
    }
}

/// In-memory implementation of a vector store.
pub struct InMemoryVectorStore {
    /// Storage for data entry metadata.
    pub data_entries: Vec<DataEntry>,
    /// Annotations used for prompting (opaque configuration, persisted verbatim).
    pub prompt_annotations: Vec<String>,
    /// Prompts used for vectorization (opaque configuration, persisted verbatim).
    pub prompts: Vec<String>,
    /// Size of prompt batches (opaque configuration, persisted verbatim).
    pub prompt_size: usize,
    /// Dimension of the vectors.
    pub dimensions: usize,
    /// Next identifier to assign; strictly monotonic, never reused.
    pub next_id: usize,
}

impl View for InMemoryVectorStore {
    type V = StoreView;

    open spec fn view(&self) -> StoreView {
        StoreView {
            entries: views_of(self.data_entries@),
            prompt_annotations: self.prompt_annotations.deep_view(),
            prompts: self.prompts.deep_view(),
            prompt_size: self.prompt_size as int,
            dimensions: self.dimensions as int,
            next_id: self.next_id as int,
        }
    }
}

impl InMemoryVectorStore {
    /// Well-formedness of the store (see [`StoreView::wf`]).
    pub open spec fn wf(&self) -> bool {
        self@.wf()
    }

    /// Create a new, empty store with the given immutable configuration.
    /// The dimensionality is capped so that the exact ranking arithmetic
    /// cannot overflow.
    pub fn new(
        dimensions: usize,
        prompt_annotations: Vec<String>,
        prompts: Vec<String>,
        prompt_size: usize,
    ) -> (r: Self)
        requires
            dimensions <= MAX_DIMENSIONS,
        ensures
            r.wf(),
            r@.entries.len() == 0,
            r@.prompt_annotations == prompt_annotations.deep_view(),
            r@.prompts == prompts.deep_view(),
            r@.prompt_size == prompt_size as int,
            r@.dimensions == dimensions as int,
            r@.next_id == 1,
    {
        Self {
            data_entries: Vec::new(),
            prompts,
            prompt_size,
            prompt_annotations,
            dimensions,
            next_id: 1,
        }
    }

    /// Store entry metadata, assigning the next free identifier.
    ///
    /// Returns the identifier of the stored entry; rejects a vector whose
    /// length differs from the store's dimensionality without changing the
    /// store.
    pub fn kv_storage(&mut self, name: &str, descriptions: Vec<String>, vector: Vec<i16>) -> (r:
        Result<usize, DataEntryErrors>)
        requires
            old(self).wf(),
            old(self)@.next_id < usize::MAX,
        ensures
            final(self).wf(),
            vector@.len() != old(self)@.dimensions ==> r == Err::<usize, DataEntryErrors>(
                DataEntryErrors::DimensionMismatch,
            ) && final(self)@ == old(self)@,
            vector@.len() == old(self)@.dimensions ==> {
                &&& r matches Ok(id) && id as int == old(self)@.next_id
                &&& final(self)@.entries == old(self)@.entries.push(
                    DataEntryView {
                        id: old(self)@.next_id,
                        name: name@,
                        vector: vector@,
                        descriptions: descriptions.deep_view(),
                    },
                )
                &&& final(self)@.next_id == old(self)@.next_id + 1
                &&& final(self)@.prompt_annotations == old(self)@.prompt_annotations
                &&& final(self)@.prompts == old(self)@.prompts
                &&& final(self)@.prompt_size == old(self)@.prompt_size
                &&& final(self)@.dimensions == old(self)@.dimensions
            },
    {
        if vector.len() != self.dimensions {
            return Err(DataEntryErrors::DimensionMismatch);
        }
        let current_id: usize = self.next_id;
        self.data_entries.push(
            DataEntry { id: current_id, name: name.to_owned(), vector, descriptions },
        );
        self.next_id = current_id + 1;
        proof {
            assert(self@.entries =~= old(self)@.entries.push(
                DataEntryView {
                    id: old(self)@.next_id,
                    name: name@,
                    vector: vector@,
                    descriptions: descriptions.deep_view(),
                },
            ));
        }
        Ok(current_id)
    }

    /// Delete the entry carrying `id`.
    ///
    /// Removes exactly that entry; fails with `NoDataWasFound`, leaving the
    /// store unchanged, when no entry carries `id`.
    pub fn kv_delete(&mut self, id: usize) -> (r: Result<(), DataEntryErrors>)
        requires
            old(self).wf(),
        ensures
            final(self).wf(),
            contains_id(old(self)@.entries, id as int) ==> {
                &&& r == Ok::<(), DataEntryErrors>(())
                &&& final(self)@.entries == old(self)@.entries.remove(
                    index_of_id(old(self)@.entries, id as int),
                )
                &&& final(self)@ == StoreView { entries: final(self)@.entries, ..old(self)@ }
            },
            !contains_id(old(self)@.entries, id as int) ==> r == Err::<(), DataEntryErrors>(
                DataEntryErrors::NoDataWasFound,
            ) && final(self)@ == old(self)@,
    {
        let n = self.data_entries.len();
        let mut i: usize = 0;
        while i < n
            invariant
                old(self).wf(),
                *self == *old(self),
                n == self.data_entries.len(),
                0 <= i <= n,
                forall|k: int| 0 <= k < i ==> (#[trigger] self@.entries[k]).id != id as int,
            decreases n - i,
        {
            if self.data_entries[i].id == id {
                proof {
                    let s = self@.entries;
                    assert(s[i as int].id == id as int);
                    assert(contains_id(s, id as int));
                    let j = index_of_id(s, id as int);
                    assert(0 <= j < s.len() && s[j].id == id as int);
                    if j < i as int {
                        assert(s[j].id != s[i as int].id);
                    } else if j > i as int {
                        assert(s[i as int].id != s[j].id);
                    }
                    assert(j == i);
                }
                self.data_entries.remove(i);
                proof {
                    assert(self@.entries =~= old(self)@.entries.remove(i as int));
                    lemma_wf_remove(old(self)@, i as int);
                }
                return Ok(());
            }
            i += 1;
        }
        Err(DataEntryErrors::NoDataWasFound)
    }

    /// Replace the name, vector and descriptions of the entry carrying `id`,
    /// keeping its identifier (an in-place replace-by-identifier; the
    /// identifier carried inside the replacement record is ignored).
    ///
    /// Fails with `DimensionMismatch` for a vector of the wrong length and
    /// with `NoDataWasFound` when no entry carries `id`; either failure leaves
    /// the store unchanged.
    pub fn kv_edit(&mut self, id: usize, data_entry: DataEntry) -> (r: Result<
        (),
        DataEntryErrors,
    >)
        requires
            old(self).wf(),
        ensures
            final(self).wf(),
            data_entry@.vector.len() != old(self)@.dimensions ==> r == Err::<(), DataEntryErrors>(
                DataEntryErrors::DimensionMismatch,
            ) && final(self)@ == old(self)@,
            data_entry@.vector.len() == old(self)@.dimensions && contains_id(
                old(self)@.entries,
                id as int,
            ) ==> {
                &&& r == Ok::<(), DataEntryErrors>(())
                &&& final(self)@.entries == old(self)@.entries.update(
                    index_of_id(old(self)@.entries, id as int),
                    DataEntryView {
                        id: id as int,
                        name: data_entry@.name,
                        vector: data_entry@.vector,
                        descriptions: data_entry@.descriptions,
                    },
                )
                &&& final(self)@ == StoreView { entries: final(self)@.entries, ..old(self)@ }
            },
            data_entry@.vector.len() == old(self)@.dimensions && !contains_id(
                old(self)@.entries,
                id as int,
            ) ==> r == Err::<(), DataEntryErrors>(DataEntryErrors::NoDataWasFound)
                && final(self)@ == old(self)@,
    {
        if data_entry.vector.len() != self.dimensions {
            return Err(DataEntryErrors::DimensionMismatch);
        }
        let n = self.data_entries.len();
        let mut i: usize = 0;
        while i < n
            invariant
                old(self).wf(),
                *self == *old(self),
                data_entry@.vector.len() == old(self)@.dimensions,
                n == self.data_entries.len(),
                0 <= i <= n,
                forall|k: int| 0 <= k < i ==> (#[trigger] self@.entries[k]).id != id as int,
            decreases n - i,
        {
            if self.data_entries[i].id == id {
                proof {
                    let s = self@.entries;
                    assert(s[i as int].id == id as int);
                    assert(contains_id(s, id as int));
                    let j = index_of_id(s, id as int);
                    assert(0 <= j < s.len() && s[j].id == id as int);
                    if j < i as int {
                        assert(s[j].id != s[i as int].id);
                    } else if j > i as int {
                        assert(s[i as int].id != s[j].id);
                    }
                    assert(j == i);
                }
                let replacement = DataEntry {
                    id,
                    name: data_entry.name,
                    vector: data_entry.vector,
                    descriptions: data_entry.descriptions,
                };
                self.data_entries.remove(i);
                self.data_entries.insert(i, replacement);
                proof {
                    assert(self@.entries =~= old(self)@.entries.update(
                        i as int,
                        DataEntryView {
                            id: id as int,
                            name: data_entry@.name,
                            vector: data_entry@.vector,
                            descriptions: data_entry@.descriptions,
                        },
                    ));
                    lemma_wf_update(
                        old(self)@,
                        i as int,
                        DataEntryView {
                            id: id as int,
                            name: data_entry@.name,
                            vector: data_entry@.vector,
                            descriptions: data_entry@.descriptions,
                        },
                    );
                }
                return Ok(());
            }
            i += 1;
        }
        Err(DataEntryErrors::NoDataWasFound)
    }

    /// Exact cosine similarity between two vectors, as the signed square
    /// fraction `num / den` (see [`crate::ranking::Similarity`]).
    pub fn cosine_similarity(&self, a: &Vec<i16>, b: &Vec<i16>) -> (r: Similarity)
        requires
            a@.len() <= MAX_DIMENSIONS,
            b@.len() <= MAX_DIMENSIONS,
        ensures
            r.num == sim_num(a@, b@),
            r.den == sim_den_pair(a@, b@),
            r.den >= 1,
    {
        similarity(a, b)
    }

    /// Rank every stored entry by similarity to `query_vector` and return
    /// copies of the `top_n` best, best first; entries of equal score keep
    /// their insertion order.
    ///
    /// Fails with `DimensionMismatch` for a query of the wrong length, and
    /// with `NoDataWasFound` when the store is empty or `top_n` is zero.
    pub fn kv_search(&self, query_vector: Vec<i16>, top_n: usize) -> (r: Result<
        Vec<DataEntry>,
        DataEntryErrors,
    >)
        requires
            self.wf(),
        ensures
            query_vector@.len() != self@.dimensions ==> r == Err::<
                Vec<DataEntry>,
                DataEntryErrors,
            >(DataEntryErrors::DimensionMismatch),
            query_vector@.len() == self@.dimensions && self@.entries.len() == 0 ==> r == Err::<
                Vec<DataEntry>,
                DataEntryErrors,
            >(DataEntryErrors::NoDataWasFound),
            query_vector@.len() == self@.dimensions && self@.entries.len() > 0 && top_n == 0 ==> r
                == Err::<Vec<DataEntry>, DataEntryErrors>(DataEntryErrors::NoDataWasFound),
            query_vector@.len() == self@.dimensions && self@.entries.len() > 0 && top_n > 0 ==> {
                &&& r matches Ok(v)
                &&& views_of(v@) == search_result(query_vector@, self@.entries, top_n as int)
            },
    {
        if query_vector.len() != self.dimensions {
            return Err(DataEntryErrors::DimensionMismatch);
        }
        if self.data_entries.len() == 0 {
            return Err(DataEntryErrors::NoDataWasFound);
        }
        let ghost qv = query_vector@;
        let ghost evs = self@.entries;
        let n = self.data_entries.len();
        let mut ranked_entries: Vec<DataEntry> = Vec::new();
        for i in 0..n
            invariant
                self.wf(),
                n == self.data_entries.len(),
                query_vector@.len() == self@.dimensions,
                qv == query_vector@,
                evs == self@.entries,
                views_of(ranked_entries@) == ranked(qv, evs.take(i as int)),
                ranked_entries@.len() == i,
                forall|k: int|
                    0 <= k < ranked_entries@.len() ==> (#[trigger] ranked_entries@[k])@.vector.len()
                        == self@.dimensions,
        {
            let e = self.data_entries[i].duplicate();
            proof {
                assert(e@ == evs[i as int]);
                lemma_ranked_sorted(qv, evs.take(i as int));
            }
            let ghost before = ranked_entries@;
            let mut j: usize = 0;
            while j < ranked_entries.len() && score_le_exec(
                &query_vector,
                &e.vector,
                &ranked_entries[j].vector,
            )
                invariant
                    self.wf(),
                    qv == query_vector@,
                    query_vector@.len() == self@.dimensions,
                    e@.vector.len() == self@.dimensions,
                    ranked_entries@ == before,
                    0 <= j <= before.len(),
                    forall|k: int|
                        0 <= k < before.len() ==> (#[trigger] before[k])@.vector.len()
                            == self@.dimensions,
                    forall|k: int|
                        0 <= k < j ==> score_le(qv, e@.vector, (#[trigger] before[k])@.vector),
                decreases before.len() - j,
            {
                j += 1;
            }
            ranked_entries.insert(j, e);
            proof {
                assert forall|k: int| 0 <= k < views_of(before).len() implies score_le(
                    qv,
                    e@.vector,
                    (#[trigger] views_of(before)[k]).vector,
                ) == score_le(qv, e@.vector, before[k]@.vector) by {}
                lemma_insert_ranked_at(qv, e@, views_of(before), j as int);
                assert(views_of(ranked_entries@) =~= views_of(before).insert(j as int, e@));
                assert(evs.take(i + 1).drop_last() =~= evs.take(i as int));
                assert(evs.take(i + 1).last() == evs[i as int]);
                assert(views_of(ranked_entries@) == ranked(qv, evs.take(i + 1)));
                assert forall|k: int|
                    0 <= k < ranked_entries@.len() implies (
                #[trigger] ranked_entries@[k])@.vector.len() == self@.dimensions by {
                    if k < j {
                        assert(ranked_entries@[k] == before[k]);
                    } else if k == j {
                        assert(ranked_entries@[k] == e);
                    } else {
                        assert(ranked_entries@[k] == before[k - 1]);
                    }
                }
            }
        }
        proof {
            assert(evs.take(n as int) =~= evs);
            lemma_ranked_len(qv, evs);
        }
        let ghost full = ranked_entries@;
        ranked_entries.truncate(top_n);
        proof {
            if top_n as int <= full.len() {
                assert(views_of(ranked_entries@) =~= views_of(full).take(top_n as int));
            }
        }
        if ranked_entries.len() == 0 {
            return Err(DataEntryErrors::NoDataWasFound);
        }
        Ok(ranked_entries)
    }
}


/// Insert `e` into the already-ranked `s`: `e` goes in front of the first
/// entry it strictly outranks, and therefore behind every entry of equal
/// score, which keeps ranking stable on ties.
pub open spec fn insert_ranked(q: Seq<i16>, e: DataEntryView, s: Seq<DataEntryView>) -> Seq<
    DataEntryView,
>
    decreases s.len(),
{
    if s.len() == 0 {
        seq![e]
    } else if !score_le(q, e.vector, s[0].vector) {
        seq![e] + s
    } else {
        seq![s[0]] + insert_ranked(q, e, s.drop_first())
    }
}

/// The stable ranking of `s` by non-increasing similarity to `q`: entries are
/// inserted in their original order, each behind all equal-scored
/// predecessors.
pub open spec fn ranked(q: Seq<i16>, s: Seq<DataEntryView>) -> Seq<DataEntryView>
    decreases s.len(),
{
    if s.len() == 0 {
        Seq::empty()
    } else {
        insert_ranked(q, s.last(), ranked(q, s.drop_last()))
    }
}

/// Non-increasing similarity to `q`.
pub open spec fn sorted_by_score(q: Seq<i16>, s: Seq<DataEntryView>) -> bool {
    forall|i: int, j: int| 0 <= i <= j < s.len() ==> score_le(q, s[j].vector, s[i].vector)
}

/// What a successful search returns: the ranked entries, cut to `top_n`.
pub open spec fn search_result(q: Seq<i16>, s: Seq<DataEntryView>, top_n: int) -> Seq<
    DataEntryView,
> {
    let r = ranked(q, s);
    if top_n <= r.len() {
        r.take(top_n)
    } else {
        r
    }
}

pub proof fn lemma_insert_ranked_len(q: Seq<i16>, e: DataEntryView, s: Seq<DataEntryView>)
    ensures
        insert_ranked(q, e, s).len() == s.len() + 1,
    decreases s.len(),
{
    if s.len() > 0 && score_le(q, e.vector, s[0].vector) {
        lemma_insert_ranked_len(q, e, s.drop_first());
    }
}

pub proof fn lemma_ranked_len(q: Seq<i16>, s: Seq<DataEntryView>)
    ensures
        ranked(q, s).len() == s.len(),
    decreases s.len(),
{
    if s.len() > 0 {
        lemma_ranked_len(q, s.drop_last());
        lemma_insert_ranked_len(q, s.last(), ranked(q, s.drop_last()));
    }
}

/// Every entry of the insertion result is `e` or an entry of `s`.
proof fn lemma_insert_ranked_elems(q: Seq<i16>, e: DataEntryView, s: Seq<DataEntryView>)
    ensures
        forall|k: int|
            0 <= k < insert_ranked(q, e, s).len() ==> #[trigger] insert_ranked(q, e, s)[k] == e
                || s.contains(insert_ranked(q, e, s)[k]),
    decreases s.len(),
{
    let t = insert_ranked(q, e, s);
    if s.len() == 0 {
    } else if !score_le(q, e.vector, s[0].vector) {
        assert forall|k: int| 0 <= k < t.len() implies t[k] == e || s.contains(t[k]) by {
            if k > 0 {
                assert(t[k] == s[k - 1]);
            }
        }
    } else {
        lemma_insert_ranked_elems(q, e, s.drop_first());
        let u = insert_ranked(q, e, s.drop_first());
        assert forall|k: int| 0 <= k < t.len() implies t[k] == e || s.contains(t[k]) by {
            if k == 0 {
                assert(s[0] == t[0]);
                assert(s.contains(s[0]));
            } else {
                assert(t[k] == u[k - 1]);
                if u[k - 1] != e {
                    let m = choose|m: int| 0 <= m < s.drop_first().len() && s.drop_first()[m]
                        == u[k - 1];
                    assert(s[m + 1] == u[k - 1]);
                    assert(s.contains(s[m + 1]));
                }
            }
        }
    }
}

#[verifier::rlimit(60)]
#[verifier::spinoff_prover]
proof fn lemma_insert_ranked_sorted(q: Seq<i16>, e: DataEntryView, s: Seq<DataEntryView>)
    requires
        sorted_by_score(q, s),
    ensures
        sorted_by_score(q, insert_ranked(q, e, s)),
    decreases s.len(),
{
    let t = insert_ranked(q, e, s);
    if s.len() == 0 {
    } else if !score_le(q, e.vector, s[0].vector) {
        lemma_score_le_total(q, e.vector, s[0].vector);
        assert forall|i: int, j: int| 0 <= i <= j < t.len() implies score_le(
            q,
            t[j].vector,
            t[i].vector,
        ) by {
            if i == 0 && j > 0 {
                assert(t[j] == s[j - 1]);
                lemma_score_le_trans(q, s[j - 1].vector, s[0].vector, e.vector);
            } else if i > 0 {
                assert(t[i] == s[i - 1] && t[j] == s[j - 1]);
            }
        }
    } else {
        assert forall|i: int, j: int|
            0 <= i <= j < s.drop_first().len() implies score_le(
            q,
            s.drop_first()[j].vector,
            s.drop_first()[i].vector,
        ) by {
            assert(s.drop_first()[j] == s[j + 1] && s.drop_first()[i] == s[i + 1]);
        }
        lemma_insert_ranked_sorted(q, e, s.drop_first());
        lemma_insert_ranked_elems(q, e, s.drop_first());
        let u = insert_ranked(q, e, s.drop_first());
        assert forall|i: int, j: int| 0 <= i <= j < t.len() implies score_le(
            q,
            t[j].vector,
            t[i].vector,
        ) by {
            if i == 0 {
                if j == 0 {
                } else {
                    assert(t[j] == u[j - 1]);
                    if u[j - 1] == e {
                    } else {
                        let m = choose|m: int| 0 <= m < s.drop_first().len() && s.drop_first()[m]
                            == u[j - 1];
                        assert(s[m + 1] == u[j - 1]);
                        assert(score_le(q, s[m + 1].vector, s[0].vector));
                    }
                }
            } else {
                assert(t[i] == u[i - 1] && t[j] == u[j - 1]);
            }
        }
    }
}

/// The stable ranking is ordered by non-increasing similarity to the query.
pub proof fn lemma_ranked_sorted(q: Seq<i16>, s: Seq<DataEntryView>)
    ensures
        sorted_by_score(q, ranked(q, s)),
    decreases s.len(),
{
    if s.len() > 0 {
        lemma_ranked_sorted(q, s.drop_last());
        lemma_insert_ranked_sorted(q, s.last(), ranked(q, s.drop_last()));
    }
}

/// Search results hold at most `top_n` entries, ordered by non-increasing
/// similarity score.
pub proof fn lemma_search_result_sorted(q: Seq<i16>, s: Seq<DataEntryView>, top_n: int)
    requires
        top_n >= 0,
    ensures
        sorted_by_score(q, search_result(q, s, top_n)),
        search_result(q, s, top_n).len() <= top_n,
        search_result(q, s, top_n).len() == if top_n <= s.len() {
            top_n
        } else {
            s.len() as int
        },
    decreases s.len(),
{
    lemma_ranked_sorted(q, s);
    lemma_ranked_len(q, s);
    let r = ranked(q, s);
    let t = search_result(q, s, top_n);
    assert forall|i: int, j: int| 0 <= i <= j < t.len() implies score_le(
        q,
        t[j].vector,
        t[i].vector,
    ) by {
        assert(t[i] == r[i] && t[j] == r[j]);
    }
}

/// Inserting at the first position whose entry is strictly outranked matches
/// the specification-level insertion.
proof fn lemma_insert_ranked_at(q: Seq<i16>, e: DataEntryView, s: Seq<DataEntryView>, j: int)
    requires
        sorted_by_score(q, s),
        0 <= j <= s.len(),
        forall|k: int| 0 <= k < j ==> score_le(q, e.vector, (#[trigger] s[k]).vector),
        j < s.len() ==> !score_le(q, e.vector, s[j].vector),
    ensures
        insert_ranked(q, e, s) == s.insert(j, e),
    decreases s.len(),
{
    if s.len() == 0 {
        assert(insert_ranked(q, e, s) =~= s.insert(0, e));
    } else if j == 0 {
        assert(!score_le(q, e.vector, s[0].vector));
        assert(insert_ranked(q, e, s) =~= s.insert(0, e));
    } else {
        assert(score_le(q, e.vector, s[0].vector));
        let d = s.drop_first();
        assert forall|i2: int, j2: int| 0 <= i2 <= j2 < d.len() implies score_le(
            q,
            d[j2].vector,
            d[i2].vector,
        ) by {
            assert(d[j2] == s[j2 + 1] && d[i2] == s[i2 + 1]);
        }
        assert forall|k: int| 0 <= k < j - 1 implies score_le(q, e.vector, (#[trigger] d[k]).vector) by {
            assert(d[k] == s[k + 1]);
        }
        if j - 1 < d.len() {
            assert(d[j - 1] == s[j]);
        }
        lemma_insert_ranked_at(q, e, d, j - 1);
        assert(insert_ranked(q, e, s) =~= s.insert(j, e));
    }
}

/// Ranking one more entry inserts it into the ranking of the rest.
proof fn lemma_ranked_push(q: Seq<i16>, s: Seq<DataEntryView>, e: DataEntryView)
    ensures
        ranked(q, s.push(e)) == insert_ranked(q, e, ranked(q, s)),
{
    assert(s.push(e).drop_last() =~= s);
    assert(s.push(e).last() == e);
}

/// Defines essential operations that must be implemented by vector stores.
///
/// The store is parameterized by an embedding collaborator only at the system
/// boundary: callers obtain a feature vector for their raw input (an image)
/// from that collaborator and hand the finished vector to these operations.
pub trait VectorStore: Sized {
    /// Views of the stored entries, in insertion order.
    spec fn entries_view(&self) -> Seq<DataEntryView>;

    /// The configured vector dimensionality.
    spec fn store_dimensions(&self) -> int;

    /// Implementation invariant.
    spec fn store_wf(&self) -> bool;

    /// A fresh identifier can still be assigned.
    spec fn can_assign_id(&self) -> bool;

    /// Search for the `top_n` entries most similar to the query vector, best
    /// first, ties in insertion order. Fails with `DimensionMismatch` for a
    /// query of the wrong length, and with `NoDataWasFound` when the store is
    /// empty or `top_n` is zero.
    fn search(&self, query_vector: Vec<i16>, top_n: usize) -> (r: Result<
        Vec<DataEntry>,
        DataEntryErrors,
    >)
        requires
            self.store_wf(),
        ensures
            query_vector@.len() != self.store_dimensions() ==> r == Err::<
                Vec<DataEntry>,
                DataEntryErrors,
            >(DataEntryErrors::DimensionMismatch),
            query_vector@.len() == self.store_dimensions() && self.entries_view().len() == 0
                ==> r == Err::<Vec<DataEntry>, DataEntryErrors>(DataEntryErrors::NoDataWasFound),
            query_vector@.len() == self.store_dimensions() && self.entries_view().len() > 0
                && top_n == 0 ==> r == Err::<Vec<DataEntry>, DataEntryErrors>(
                DataEntryErrors::NoDataWasFound,
            ),
            query_vector@.len() == self.store_dimensions() && self.entries_view().len() > 0
                && top_n > 0 ==> {
                &&& r matches Ok(v)
                &&& views_of(v@) == search_result(query_vector@, self.entries_view(), top_n as int)
            },
    ;

    /// Add a new entry under a freshly assigned identifier and return that
    /// identifier. Never fails for duplicate names; fails with
    /// `DimensionMismatch`, leaving the store unchanged, for a vector of the
    /// wrong length.
    fn add(&mut self, name: &str, descriptions: Vec<String>, vector: Vec<i16>) -> (r: Result<
        usize,
        DataEntryErrors,
    >)
        requires
            old(self).store_wf(),
            old(self).can_assign_id(),
        ensures
            final(self).store_wf(),
            final(self).store_dimensions() == old(self).store_dimensions(),
            vector@.len() != old(self).store_dimensions() ==> r == Err::<usize, DataEntryErrors>(
                DataEntryErrors::DimensionMismatch,
            ) && final(self).entries_view() == old(self).entries_view(),
            vector@.len() == old(self).store_dimensions() ==> {
                &&& r matches Ok(id)
                &&& !contains_id(old(self).entries_view(), id as int)
                &&& final(self).entries_view() == old(self).entries_view().push(
                    DataEntryView {
                        id: r.unwrap() as int,
                        name: name@,
                        vector: vector@,
                        descriptions: descriptions.deep_view(),
                    },
                )
            },
    ;

    /// Delete the entry carrying `id`; removes exactly that entry. Fails with
    /// `NoDataWasFound`, leaving the store unchanged, when no entry carries
    /// `id`.
    fn delete(&mut self, id: usize) -> (r: Result<(), DataEntryErrors>)
        requires
            old(self).store_wf(),
        ensures
            final(self).store_wf(),
            final(self).store_dimensions() == old(self).store_dimensions(),
            contains_id(old(self).entries_view(), id as int) ==> r == Ok::<(), DataEntryErrors>(())
                && final(self).entries_view() == old(self).entries_view().remove(
                index_of_id(old(self).entries_view(), id as int),
            ),
            !contains_id(old(self).entries_view(), id as int) ==> r == Err::<(), DataEntryErrors>(
                DataEntryErrors::NoDataWasFound,
            ) && final(self).entries_view() == old(self).entries_view(),
    ;

    /// Edit an entry: delete the entry carrying the replacement record's
    /// identifier, then add the replacement's name and descriptions with the
    /// newly supplied vector. The stored identifier is therefore a freshly
    /// assigned one, returned to the caller — not the original. Validates the
    /// vector before deleting, so a failed edit never leaves a partial state.
    fn edit(&mut self, vector: Vec<i16>, data_entry: DataEntry) -> (r: Result<
        usize,
        DataEntryErrors,
    >)
        requires
            old(self).store_wf(),
            old(self).can_assign_id(),
        ensures
            final(self).store_wf(),
            final(self).store_dimensions() == old(self).store_dimensions(),
            vector@.len() != old(self).store_dimensions() ==> r == Err::<usize, DataEntryErrors>(
                DataEntryErrors::DimensionMismatch,
            ) && final(self).entries_view() == old(self).entries_view(),
            vector@.len() == old(self).store_dimensions() && !contains_id(
                old(self).entries_view(),
                data_entry@.id,
            ) ==> r == Err::<usize, DataEntryErrors>(DataEntryErrors::NoDataWasFound)
                && final(self).entries_view() == old(self).entries_view(),
            vector@.len() == old(self).store_dimensions() && contains_id(
                old(self).entries_view(),
                data_entry@.id,
            ) ==> {
                &&& r matches Ok(id)
                &&& final(self).entries_view() == old(self).entries_view().remove(
                    index_of_id(old(self).entries_view(), data_entry@.id),
                ).push(
                    DataEntryView {
                        id: r.unwrap() as int,
                        name: data_entry@.name,
                        vector: vector@,
                        descriptions: data_entry@.descriptions,
                    },
                )
            },
    ;

    /// Return a copy of every stored entry, in insertion order.
    fn get_all(&self) -> (r: Vec<DataEntry>)
        ensures
            views_of(r@) == self.entries_view(),
    ;
}

impl VectorStore for InMemoryVectorStore {
    open spec fn entries_view(&self) -> Seq<DataEntryView> {
        self@.entries
    }

    open spec fn store_dimensions(&self) -> int {
        self@.dimensions
    }

    open spec fn store_wf(&self) -> bool {
        self.wf()
    }

    open spec fn can_assign_id(&self) -> bool {
        self@.next_id < usize::MAX
    }

    fn search(&self, query_vector: Vec<i16>, top_n: usize) -> (r: Result<
        Vec<DataEntry>,
        DataEntryErrors,
    >) {
        self.kv_search(query_vector, top_n)
    }

    fn add(&mut self, name: &str, descriptions: Vec<String>, vector: Vec<i16>) -> (r: Result<
        usize,
        DataEntryErrors,
    >) {
        self.kv_storage(name, descriptions, vector)
    }

    fn delete(&mut self, id: usize) -> (r: Result<(), DataEntryErrors>) {
        self.kv_delete(id)
    }

    fn edit(&mut self, vector: Vec<i16>, data_entry: DataEntry) -> (r: Result<
        usize,
        DataEntryErrors,
    >) {
        if vector.len() != self.dimensions {
            return Err(DataEntryErrors::DimensionMismatch);
        }
        match self.kv_delete(data_entry.id) {
            Err(e) => Err(e),
            Ok(()) => {
                let r = self.kv_storage(data_entry.name.as_str(), data_entry.descriptions, vector);
                proof {
                    if r is Ok {
                        let s2 = old(self).entries_view().remove(
                            index_of_id(old(self).entries_view(), data_entry@.id),
                        );
                        if contains_id(s2, r.unwrap() as int) {
                            let k = choose|k: int|
                                0 <= k < s2.len() && s2[k].id == r.unwrap() as int;
                            assert(s2[k].id < r.unwrap() as int);
                        }
                    }
                }
                r
            },
        }
    }

    fn get_all(&self) -> (r: Vec<DataEntry>) {
        let mut r: Vec<DataEntry> = Vec::new();
        let n = self.data_entries.len();
        for i in 0..n
            invariant
                n == self.data_entries.len(),
                r@.len() == i,
                forall|k: int| 0 <= k < i ==> (#[trigger] r@[k])@ == self@.entries[k],
        {
            r.push(self.data_entries[i].duplicate());
        }
        proof {
            assert(views_of(r@) =~= self@.entries);
        }
        r
    }
}

/// Deleting an identifier removes exactly one record: afterwards no record
/// carries that identifier, so a second delete of the same identifier must
/// fail with `NoDataWasFound`.
pub proof fn lemma_delete_removes_id(s: Seq<DataEntryView>, id: int)
    requires
        unique_ids(s),
        contains_id(s, id),
    ensures
        s.remove(index_of_id(s, id)).len() == s.len() - 1,
        !contains_id(s.remove(index_of_id(s, id)), id),
{
    let i = index_of_id(s, id);
    assert(0 <= i < s.len() && s[i].id == id);
    let t = s.remove(i);
    if contains_id(t, id) {
        let k = choose|k: int| 0 <= k < t.len() && t[k].id == id;
        if k < i {
            assert(t[k] == s[k]);
            assert(s[k].id != s[i].id);
        } else {
            assert(t[k] == s[k + 1]);
            assert(s[i].id != s[k + 1].id);
        }
    }
}

/// Membership in the equality class of similarity scores of `v`.
pub open spec fn in_score_class(q: Seq<i16>, v: Seq<i16>) -> spec_fn(DataEntryView) -> bool {
    |e: DataEntryView| score_eq(q, e.vector, v)
}

proof fn lemma_filter_all_excluded(s: Seq<DataEntryView>, pred: spec_fn(DataEntryView) -> bool)
    requires
        forall|k: int| 0 <= k < s.len() ==> !pred(#[trigger] s[k]),
    ensures
        s.filter(pred) == Seq::<DataEntryView>::empty(),
    decreases s.len(),
{
    reveal(Seq::filter);
    if s.len() > 0 {
        lemma_filter_all_excluded(s.drop_last(), pred);
    }
}

proof fn lemma_filter_singleton(x: DataEntryView, pred: spec_fn(DataEntryView) -> bool)
    ensures
        pred(x) ==> seq![x].filter(pred) == seq![x],
        !pred(x) ==> seq![x].filter(pred) == Seq::<DataEntryView>::empty(),
{
    reveal_with_fuel(Seq::filter, 2);
    assert(seq![x].drop_last() =~= Seq::<DataEntryView>::empty());
    if pred(x) {
        assert(seq![x].filter(pred) =~= seq![x]);
    } else {
        assert(seq![x].filter(pred) =~= Seq::<DataEntryView>::empty());
    }
}

proof fn lemma_insert_ranked_filter(q: Seq<i16>, v: Seq<i16>, e: DataEntryView, s: Seq<
    DataEntryView,
>)
    requires
        sorted_by_score(q, s),
    ensures
        (in_score_class(q, v))(e) ==> insert_ranked(q, e, s).filter(in_score_class(q, v))
            == s.filter(in_score_class(q, v)).push(e),
        !(in_score_class(q, v))(e) ==> insert_ranked(q, e, s).filter(in_score_class(q, v))
            == s.filter(in_score_class(q, v)),
    decreases s.len(),
{
    broadcast use Seq::filter_distributes_over_add;

    reveal(Seq::filter);
    let pred = in_score_class(q, v);
    if s.len() == 0 {
        lemma_filter_singleton(e, pred);
        assert(s.filter(pred) =~= Seq::<DataEntryView>::empty());
        if pred(e) {
            assert(Seq::<DataEntryView>::empty().push(e) =~= seq![e]);
        }
    } else if !score_le(q, e.vector, s[0].vector) {
        lemma_filter_singleton(e, pred);
        assert(insert_ranked(q, e, s) == seq![e] + s);
        if pred(e) {
            assert forall|k: int| 0 <= k < s.len() implies !pred(#[trigger] s[k]) by {
                if pred(s[k]) {
                    lemma_score_le_trans(q, e.vector, v, s[k].vector);
                    lemma_score_le_trans(q, e.vector, s[k].vector, s[0].vector);
                }
            }
            lemma_filter_all_excluded(s, pred);
            assert((seq![e] + s).filter(pred) == seq![e].filter(pred) + s.filter(pred));
            assert(seq![e] + Seq::<DataEntryView>::empty() =~= Seq::<
                DataEntryView,
            >::empty().push(e));
        } else {
            assert((seq![e] + s).filter(pred) == seq![e].filter(pred) + s.filter(pred));
            assert(Seq::<DataEntryView>::empty() + s.filter(pred) =~= s.filter(pred));
        }
    } else {
        let d = s.drop_first();
        assert forall|i2: int, j2: int| 0 <= i2 <= j2 < d.len() implies score_le(
            q,
            d[j2].vector,
            d[i2].vector,
        ) by {
            assert(d[j2] == s[j2 + 1] && d[i2] == s[i2 + 1]);
        }
        lemma_insert_ranked_filter(q, v, e, d);
        lemma_filter_singleton(s[0], pred);
        let t = insert_ranked(q, e, d);
        assert(insert_ranked(q, e, s) == seq![s[0]] + t);
        assert((seq![s[0]] + t).filter(pred) == seq![s[0]].filter(pred) + t.filter(pred));
        assert(s =~= seq![s[0]] + d);
        assert(s.filter(pred) == seq![s[0]].filter(pred) + d.filter(pred));
        if pred(e) {
            assert(seq![s[0]].filter(pred) + d.filter(pred).push(e) =~= (seq![s[0]].filter(pred)
                + d.filter(pred)).push(e));
        }
    }
}

/// Ranking is stable: restricted to any one equality class of similarity
/// scores, the ranked sequence is exactly the original sequence — entries
/// with equal scores keep their insertion order.
pub proof fn lemma_ranked_stable(q: Seq<i16>, v: Seq<i16>, s: Seq<DataEntryView>)
    ensures
        ranked(q, s).filter(in_score_class(q, v)) == s.filter(in_score_class(q, v)),
    decreases s.len(),
{
    broadcast use Seq::lemma_filter_push;

    let pred = in_score_class(q, v);
    if s.len() > 0 {
        lemma_ranked_stable(q, v, s.drop_last());
        lemma_ranked_sorted(q, s.drop_last());
        lemma_insert_ranked_filter(q, v, s.last(), ranked(q, s.drop_last()));
        assert(s =~= s.drop_last().push(s.last()));
        assert(s.drop_last().push(s.last()).filter(pred) == if pred(s.last()) {
            s.drop_last().filter(pred).push(s.last())
        } else {
            s.drop_last().filter(pred)
        });
    }
}

proof fn lemma_insert_ranked_has(q: Seq<i16>, e: DataEntryView, s: Seq<DataEntryView>)
    ensures
        insert_ranked(q, e, s).contains(e),
    decreases s.len(),
{
    let t = insert_ranked(q, e, s);
    if s.len() == 0 {
        assert(t[0] == e);
    } else if !score_le(q, e.vector, s[0].vector) {
        assert(t[0] == e);
    } else {
        lemma_insert_ranked_has(q, e, s.drop_first());
        let u = insert_ranked(q, e, s.drop_first());
        let k = choose|k: int| 0 <= k < u.len() && u[k] == e;
        assert(t[k + 1] == e);
    }
}

/// A record added last and immediately searched for with its own vector as
/// the query is among the results whenever `top_n` covers the whole store,
/// and no result outranks it: its similarity score is maximal (and equal to
/// one whenever the vector is not all-zero — see
/// [`crate::ranking::lemma_identical_similarity`]). When `top_n` is smaller
/// than the store, earlier records of equal score may crowd it out, since
/// ties keep insertion order.
pub proof fn lemma_added_record_found(
    q: Seq<i16>,
    e: DataEntryView,
    s: Seq<DataEntryView>,
    top_n: int,
)
    requires
        e.vector == q,
        s.len() + 1 <= top_n,
    ensures
        search_result(q, s.push(e), top_n).contains(e),
        forall|k: int|
            0 <= k < search_result(q, s.push(e), top_n).len() ==> score_le(
                q,
                (#[trigger] search_result(q, s.push(e), top_n)[k]).vector,
                e.vector,
            ),
{
    lemma_ranked_len(q, s.push(e));
    lemma_ranked_push(q, s, e);
    lemma_insert_ranked_has(q, e, ranked(q, s));
    let r = search_result(q, s.push(e), top_n);
    assert(r == ranked(q, s.push(e)));
    assert forall|k: int| 0 <= k < r.len() implies score_le(
        q,
        (#[trigger] r[k]).vector,
        e.vector,
    ) by {
        lemma_exact_match_score_maximal(q, r[k].vector);
    }
}
} // verus!
