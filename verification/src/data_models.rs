//! The records of the index: per-document term frequencies, posting buckets,
//! on-disk record types, and the per-field widths of the fixed-width files.

use vstd::prelude::*;
use crate::constants::TERM_LENGTH;
use crate::constants::WEIGHT_MULTIPLIER;
use crate::hashtable::{HashTable, TableEntry, Combine};
use crate::decimal::spec_decimal;
use crate::decimal::decimal_len;
use crate::weight::{idf_scaled, spec_idf_scaled};

verus! {

/// A ranked search result: a document name and its accumulated weight.
pub struct NamedResult {
    pub name: String,
    pub weight: usize,
}

/// One term's occurrence record for one document. The relative term
/// frequency is the exact rational `raw_term_frequency / doc_token_count`.
#[derive(Clone, Copy)]
pub struct DocFrequency {
    pub doc_id: usize,
    pub raw_term_frequency: usize,
    pub doc_token_count: usize,
}

/// One posting: a document and the weight of the queried term in it.
#[derive(Clone, Copy)]
pub struct PostRecord {
    pub doc_id: usize,
    pub weight: usize,
}

/// One dictionary line: a term, the number of documents holding it, and the
/// line of the postings file where its postings begin.
pub struct DictRecord {
    pub term: String,
    pub num_docs: usize,
    pub post_line_start: usize,
}

/// One line of the document map: the position in the file is the doc id.
pub struct MapRecord {
    pub doc_id: usize,
    pub file_name: String,
}

/// The sum of the raw term frequencies of a posting list.
pub open spec fn spec_total_freq(files: Seq<DocFrequency>) -> int
    decreases files.len(),
{
    if files.len() == 0 {
        0
    } else {
        spec_total_freq(files.drop_last()) + files.last().raw_term_frequency
    }
}

/// The value stored under a term in the global table: one DocFrequency per
/// document that holds the term, in insertion order.
#[derive(Clone)]
pub struct GlobHTBucket {
    files: Vec<DocFrequency>,
}

impl GlobHTBucket {
    /// The posting list.
    pub closed spec fn files_view(self) -> Seq<DocFrequency> {
        self.files@
    }

    /// A fresh bucket holding a single document's record.
    pub fn new(doc_id: usize, raw_term_frequency: usize, doc_token_count: usize) -> (r: Self)
        ensures
            r.files_view() =~= seq![
                (DocFrequency { doc_id, raw_term_frequency, doc_token_count }),
            ],
    {
        let mut files: Vec<DocFrequency> = Vec::new();
        files.push(DocFrequency { doc_id, raw_term_frequency, doc_token_count });
        Self { files }
    }

    /// The number of documents that hold the term.
    pub fn get_num_docs(&self) -> (r: usize)
        ensures
            r == self.files_view().len(),
    {
        self.files.len()
    }

    /// The total raw frequency of the term over all documents.
    pub fn get_total_frequency(&self) -> (r: usize)
        requires
            0 <= spec_total_freq(self.files_view()) <= usize::MAX,
        ensures
            r == spec_total_freq(self.files_view()),
    {
        let mut sum: usize = 0;
        let mut i: usize = 0;
        let n = self.files.len();
        proof {
            assert(self.files_view().take(0) =~= Seq::<DocFrequency>::empty());
            lemma_total_freq_nonneg(self.files_view());
        }
        while i < n
            invariant
                i <= n,
                n == self.files_view().len(),
                sum == spec_total_freq(self.files_view().take(i as int)),
                0 <= spec_total_freq(self.files_view()) <= usize::MAX,
                spec_total_freq(self.files_view().take(i as int)) <= spec_total_freq(
                    self.files_view(),
                ),
            decreases n - i,
        {
            proof {
                lemma_total_freq_take_step(self.files_view(), i as int);
                lemma_total_freq_take_le(self.files_view(), i + 1);
            }
            sum = sum + self.files[i].raw_term_frequency;
            i = i + 1;
        }
        proof {
            assert(self.files_view().take(n as int) =~= self.files_view());
        }
        sum
    }

    /// The posting list, in insertion order.
    pub fn get_files(&self) -> (r: &Vec<DocFrequency>)
        ensures
            r@ == self.files_view(),
    {
        &self.files
    }

    /// A rare term occurs in at most one document with at most one occurrence
    /// in total; rare terms are tombstoned in the dictionary and omitted from
    /// the postings.
    pub fn is_rare(&self) -> (r: bool)
        requires
            0 <= spec_total_freq(self.files_view()) <= usize::MAX,
        ensures
            r == (self.files_view().len() <= 1 && spec_total_freq(self.files_view()) <= 1),
    {
        self.get_num_docs() <= 1 && self.get_total_frequency() <= 1
    }
}

pub proof fn lemma_total_freq_take_step(files: Seq<DocFrequency>, i: int)
    requires
        0 <= i < files.len(),
    ensures
        spec_total_freq(files.take(i + 1)) == spec_total_freq(files.take(i))
            + files[i].raw_term_frequency,
{
    assert(files.take(i + 1).drop_last() =~= files.take(i));
    assert(files.take(i + 1).last() == files[i]);
}

pub proof fn lemma_total_freq_take_le(files: Seq<DocFrequency>, i: int)
    requires
        0 <= i <= files.len(),
    ensures
        spec_total_freq(files.take(i)) <= spec_total_freq(files),
        spec_total_freq(files.take(i)) >= 0,
    decreases files.len() - i,
{
    lemma_total_freq_nonneg(files.take(i));
    if i < files.len() {
        lemma_total_freq_take_step(files, i);
        lemma_total_freq_take_le(files, i + 1);
    } else {
        assert(files.take(i) =~= files);
    }
}

pub proof fn lemma_total_freq_nonneg(files: Seq<DocFrequency>)
    ensures
        spec_total_freq(files) >= 0,
    decreases files.len(),
{
    if files.len() > 0 {
        lemma_total_freq_nonneg(files.drop_last());
    }
}

impl Combine for GlobHTBucket {
    /// Appending must not overflow the total raw frequency.
    open spec fn combine_ok(&self, other: &Self) -> bool {
        spec_total_freq(self.files_view()) + spec_total_freq(other.files_view()) <= usize::MAX
    }

    /// Combining posting buckets appends the newer postings.
    open spec fn combines_to(&self, other: &Self, r: &Self) -> bool {
        r.files_view() =~= self.files_view() + other.files_view()
    }

    /// A bucket weighs its total raw frequency.
    open spec fn measure(&self) -> int {
        spec_total_freq(self.files_view())
    }

    fn combine(&mut self, other: Self) {
        let mut o = other;
        self.files.append(&mut o.files);
        proof {
            assert(self.files@ =~= old(self).files_view() + other.files_view());
        }
    }

    proof fn lemma_combine_measure(a: &Self, b: &Self, r: &Self) {
        lemma_total_freq_concat(a.files_view(), b.files_view());
    }

    proof fn lemma_measure_nonneg(a: &Self) {
        lemma_total_freq_nonneg(a.files_view());
    }
}

/// The total frequency of a concatenation is the sum of the parts'.
pub proof fn lemma_total_freq_concat(a: Seq<DocFrequency>, b: Seq<DocFrequency>)
    ensures
        spec_total_freq(a + b) == spec_total_freq(a) + spec_total_freq(b),
    decreases b.len(),
{
    if b.len() == 0 {
        assert(a + b =~= a);
    } else {
        assert((a + b).drop_last() =~= a + b.drop_last());
        assert((a + b).last() == b.last());
        lemma_total_freq_concat(a, b.drop_last());
    }
}

/// The largest posting-list length over the table's occupied slots.
pub open spec fn spec_max_num_docs(s: Seq<Option<TableEntry<GlobHTBucket>>>) -> int
    decreases s.len(),
{
    if s.len() == 0 {
        0
    } else {
        let rest = spec_max_num_docs(s.drop_last());
        let here = match s.last() {
            Some(e) => e.value.files_view().len() as int,
            None => 0,
        };
        if here > rest {
            here
        } else {
            rest
        }
    }
}

/// The number of posting records over all of the table's slots.
pub open spec fn spec_total_postings(s: Seq<Option<TableEntry<GlobHTBucket>>>) -> int
    decreases s.len(),
{
    if s.len() == 0 {
        0
    } else {
        spec_total_postings(s.drop_last()) + match s.last() {
            Some(e) => e.value.files_view().len() as int,
            None => 0,
        }
    }
}

pub proof fn lemma_total_postings_take_step(s: Seq<Option<TableEntry<GlobHTBucket>>>, i: int)
    requires
        0 <= i < s.len(),
    ensures
        spec_total_postings(s.take(i + 1)) == spec_total_postings(s.take(i)) + match s[i] {
            Some(e) => e.value.files_view().len() as int,
            None => 0int,
        },
        spec_max_num_docs(s.take(i + 1)) == {
            let rest = spec_max_num_docs(s.take(i));
            let here = match s[i] {
                Some(e) => e.value.files_view().len() as int,
                None => 0int,
            };
            if here > rest {
                here
            } else {
                rest
            }
        },
{
    assert(s.take(i + 1).drop_last() =~= s.take(i));
    assert(s.take(i + 1).last() == s[i]);
}

pub proof fn lemma_total_postings_take_le(s: Seq<Option<TableEntry<GlobHTBucket>>>, i: int)
    requires
        0 <= i <= s.len(),
    ensures
        spec_total_postings(s.take(i)) <= spec_total_postings(s),
        spec_total_postings(s.take(i)) >= 0,
        spec_max_num_docs(s.take(i)) <= spec_max_num_docs(s),
        spec_max_num_docs(s.take(i)) >= 0,
        spec_max_num_docs(s.take(i)) <= spec_total_postings(s.take(i)),
    decreases s.len() - i,
{
    lemma_total_postings_props(s.take(i));
    if i < s.len() {
        lemma_total_postings_take_step(s, i);
        lemma_total_postings_take_le(s, i + 1);
    } else {
        assert(s.take(i) =~= s);
    }
}

pub proof fn lemma_total_postings_props(s: Seq<Option<TableEntry<GlobHTBucket>>>)
    ensures
        spec_total_postings(s) >= 0,
        spec_max_num_docs(s) >= 0,
        spec_max_num_docs(s) <= spec_total_postings(s),
    decreases s.len(),
{
    if s.len() > 0 {
        lemma_total_postings_props(s.drop_last());
    }
}

/// The per-field byte widths of the four index files, derived from the
/// extremes observed during a build.
pub struct FileSizes {
    pub num_dict_lines: usize,
    pub post_line_start_length: usize,
    pub num_docs_length: usize,
    pub doc_id_length: usize,
    pub weight_length: usize,
    pub map_name_length: usize,
}

/// The longest file name of the document map, in bytes of its view.
pub open spec fn spec_max_name_len(files: Seq<MapRecord>) -> int
    decreases files.len(),
{
    if files.len() == 0 {
        0
    } else {
        let rest = spec_max_name_len(files.drop_last());
        let here = files.last().file_name@.len() as int;
        if here > rest {
            here
        } else {
            rest
        }
    }
}

proof fn lemma_max_name_len_take_step(files: Seq<MapRecord>, i: int)
    requires
        0 <= i < files.len(),
    ensures
        spec_max_name_len(files.take(i + 1)) == {
            let rest = spec_max_name_len(files.take(i));
            let here = files[i].file_name@.len() as int;
            if here > rest {
                here
            } else {
                rest
            }
        },
{
    assert(files.take(i + 1).drop_last() =~= files.take(i));
    assert(files.take(i + 1).last() == files[i]);
}

impl FileSizes {
    /// Derives every field width from the built table and document map. The
    /// widths of the numeric columns are the decimal lengths of the largest
    /// value each column can hold.
    pub fn new(glob_ht: &HashTable<GlobHTBucket>, map_files: &Vec<MapRecord>) -> (r: Self)
        requires
            spec_total_postings(glob_ht.slots()) <= usize::MAX,
            forall|i: int|
                0 <= i < map_files@.len() ==> (#[trigger] map_files@[i]).file_name@.len()
                    <= usize::MAX,
        ensures
            r.num_dict_lines == glob_ht.capacity(),
            r.post_line_start_length == spec_decimal(
                spec_total_postings(glob_ht.slots()) as nat,
            ).len(),
            r.num_docs_length == spec_decimal(spec_max_num_docs(glob_ht.slots()) as nat).len(),
            r.doc_id_length == spec_decimal(map_files@.len() as nat).len(),
            r.weight_length == spec_decimal(
                (if map_files@.len() == 0 {
                    0int
                } else {
                    spec_idf_scaled(map_files@.len() as int, 1)
                }) as nat,
            ).len(),
            r.map_name_length == spec_max_name_len(map_files@),
    {
        let buckets = glob_ht.get_buckets();
        let n = buckets.len();
        let mut max_docs: usize = 0;
        let mut total_postings: usize = 0;
        let mut i: usize = 0;
        proof {
            assert(glob_ht.slots().take(0) =~= Seq::<Option<TableEntry<GlobHTBucket>>>::empty());
            lemma_total_postings_props(glob_ht.slots());
        }
        while i < n
            invariant
                i <= n,
                n == glob_ht.slots().len(),
                buckets@ == glob_ht.slots(),
                max_docs == spec_max_num_docs(glob_ht.slots().take(i as int)),
                total_postings == spec_total_postings(glob_ht.slots().take(i as int)),
                spec_total_postings(glob_ht.slots()) <= usize::MAX,
                spec_total_postings(glob_ht.slots().take(i as int)) <= spec_total_postings(
                    glob_ht.slots(),
                ),
                max_docs <= total_postings,
            decreases n - i,
        {
            proof {
                lemma_total_postings_take_step(glob_ht.slots(), i as int);
                lemma_total_postings_take_le(glob_ht.slots(), i + 1);
            }
            match &buckets[i] {
                Some(entry) => {
                    let nd = entry.value.get_num_docs();
                    if nd > max_docs {
                        max_docs = nd;
                    }
                    total_postings = total_postings + nd;
                },
                None => {},
            }
            i = i + 1;
        }
        proof {
            assert(glob_ht.slots().take(n as int) =~= glob_ht.slots());
        }
        let num_docs_length = decimal_len(max_docs);
        let post_line_start_length = decimal_len(total_postings);
        let total_docs = map_files.len();
        let doc_id_length = decimal_len(total_docs);
        let max_weight: usize = if total_docs == 0 {
            0
        } else {
            idf_scaled(total_docs, 1)
        };
        let weight_length = decimal_len(max_weight);
        // the longest file name
        let mut max_name: usize = 0;
        let mut k: usize = 0;
        proof {
            assert(map_files@.take(0) =~= Seq::<MapRecord>::empty());
        }
        while k < total_docs
            invariant
                k <= total_docs,
                total_docs == map_files@.len(),
                max_name == spec_max_name_len(map_files@.take(k as int)),
                forall|j: int|
                    0 <= j < map_files@.len() ==> (#[trigger] map_files@[j]).file_name@.len()
                        <= usize::MAX,
            decreases total_docs - k,
        {
            proof {
                lemma_max_name_len_take_step(map_files@, k as int);
            }
            let name_len = str_byte_len(&map_files[k].file_name);
            if name_len > max_name {
                max_name = name_len;
            }
            k = k + 1;
        }
        proof {
            assert(map_files@.take(total_docs as int) =~= map_files@);
        }
        Self {
            num_dict_lines: glob_ht.get_size(),
            post_line_start_length,
            num_docs_length,
            doc_id_length,
            weight_length,
            map_name_length: max_name,
        }
    }

    /// The byte length of one dictionary record: term column, two numeric
    /// columns, two separating spaces and a newline.
    pub fn get_dict_record_size(&self) -> (r: usize)
        requires
            TERM_LENGTH + self.num_docs_length + self.post_line_start_length + 3 <= usize::MAX,
        ensures
            r == TERM_LENGTH + self.num_docs_length + self.post_line_start_length + 3,
    {
        TERM_LENGTH + self.num_docs_length + self.post_line_start_length + 3
    }

    /// The byte length of one posting record: two numeric columns, a
    /// separating space and a newline.
    pub fn get_post_record_size(&self) -> (r: usize)
        requires
            self.doc_id_length + self.weight_length + 2 <= usize::MAX,
        ensures
            r == self.doc_id_length + self.weight_length + 2,
    {
        self.doc_id_length + self.weight_length + 2
    }

    /// The byte length of one map record: the name column and a newline.
    pub fn get_map_record_size(&self) -> (r: usize)
        requires
            self.map_name_length + 1 <= usize::MAX,
        ensures
            r == self.map_name_length + 1,
    {
        self.map_name_length + 1
    }
}

/// The byte length of an ASCII string's view.
pub fn str_byte_len(s: &String) -> (r: usize)
    requires
        s@.len() <= usize::MAX,
    ensures
        r == s@.len(),
{
    s.as_str().unicode_len()
}

} // verus!
