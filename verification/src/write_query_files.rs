//! The index writer: serializes the global table and document map into the
//! four fixed-width files (dictionary, postings, document map, sizes), as
//! byte buffers.

use vstd::prelude::*;
use vstd::utf8::encode_utf8;
use crate::constants::TERM_LENGTH;
use crate::decimal::{SPACE, NEWLINE, spec_decimal, spec_pad, decimal_bytes, push_padded};
use crate::data_models::{DocFrequency, GlobHTBucket, MapRecord, FileSizes, spec_total_freq,
    spec_total_postings, spec_max_num_docs, lemma_total_freq_nonneg, str_byte_len};
use crate::hashtable::{HashTable, TableEntry, slots_measure, lemma_slots_measure_nonneg};
use crate::weight::{spec_weight, tf_idf_weight, spec_idf_scaled};

verus! {

/// The dictionary sentinel for an empty slot.
pub open spec fn null_term() -> Seq<u8> {
    seq![33u8, 78u8, 85u8, 76u8, 76u8]
}

/// The dictionary tombstone for a rare term.
pub open spec fn deleted_term() -> Seq<u8> {
    seq![33u8, 68u8, 69u8, 76u8, 69u8, 84u8, 69u8, 68u8]
}

/// A rare bucket: at most one document and at most one occurrence.
pub open spec fn is_rare_bucket(files: Seq<DocFrequency>) -> bool {
    files.len() <= 1 && spec_total_freq(files) <= 1
}

/// One posting list is well-formed for a corpus of `total` documents:
/// non-empty, counts within the document's token count, and document ids
/// strictly increasing below `total`.
pub open spec fn bucket_wf(files: Seq<DocFrequency>, total: int) -> bool {
    &&& files.len() >= 1
    &&& (forall|j: int|
        0 <= j < files.len() ==> 1 <= (#[trigger] files[j]).raw_term_frequency
            <= files[j].doc_token_count)
    &&& (forall|j: int| 0 <= j < files.len() ==> (#[trigger] files[j]).doc_id < total)
    &&& (forall|j1: int, j2: int|
        0 <= j1 < j2 < files.len() ==> (#[trigger] files[j1]).doc_id < (
        #[trigger] files[j2]).doc_id)
}

/// Every occupied slot of the global table holds a well-formed posting list.
pub open spec fn glob_slots_wf(s: Seq<Option<TableEntry<GlobHTBucket>>>, total: int) -> bool {
    forall|i: int|
        0 <= i < s.len() && #[trigger] s[i] is Some ==> bucket_wf(
            s[i]->Some_0.value.files_view(),
            total,
        )
}

/// With strictly increasing ids below `total`, a posting list has at most
/// `total` entries.
pub proof fn lemma_bucket_len_le_total(files: Seq<DocFrequency>, total: int)
    requires
        bucket_wf(files, total),
    ensures
        files.len() <= total,
{
    lemma_ids_ge(files, files.len() - 1);
}

proof fn lemma_ids_ge(files: Seq<DocFrequency>, j: int)
    requires
        0 <= j < files.len(),
        forall|j1: int, j2: int|
            0 <= j1 < j2 < files.len() ==> (#[trigger] files[j1]).doc_id < (
            #[trigger] files[j2]).doc_id,
    ensures
        files[j].doc_id >= j,
    decreases j,
{
    if j > 0 {
        lemma_ids_ge(files, j - 1);
    }
}

/// One fixed-width dictionary line.
pub open spec fn spec_dict_line(term: Seq<u8>, nd: nat, start: nat, sizes: FileSizes) -> Seq<u8> {
    spec_pad(term, TERM_LENGTH as nat) + seq![SPACE] + spec_pad(
        spec_decimal(nd),
        sizes.num_docs_length as nat,
    ) + seq![SPACE] + spec_pad(spec_decimal(start), sizes.post_line_start_length as nat) + seq![
        NEWLINE,
    ]
}

/// The number of postings of the non-rare buckets from slot `i` on.
pub open spec fn spec_nonrare_postings(
    s: Seq<Option<TableEntry<GlobHTBucket>>>,
    i: int,
) -> int
    decreases s.len() - i,
        when i >= 0
{
    if i >= s.len() {
        0
    } else {
        (match s[i] {
            Some(e) => if !is_rare_bucket(e.value.files_view()) {
                e.value.files_view().len() as int
            } else {
                0
            },
            None => 0,
        }) + spec_nonrare_postings(s, i + 1)
    }
}

/// The dictionary bytes from slot `i` on, with `count` postings already
/// assigned to earlier slots.
pub open spec fn spec_dict_from(
    s: Seq<Option<TableEntry<GlobHTBucket>>>,
    sizes: FileSizes,
    i: int,
    count: nat,
) -> Seq<u8>
    decreases s.len() - i,
        when i >= 0
{
    if i >= s.len() {
        Seq::empty()
    } else {
        match s[i] {
            None => spec_dict_line(null_term(), 0, 0, sizes) + spec_dict_from(
                s,
                sizes,
                i + 1,
                count,
            ),
            Some(e) => {
                if is_rare_bucket(e.value.files_view()) {
                    spec_dict_line(deleted_term(), 0, 0, sizes) + spec_dict_from(
                        s,
                        sizes,
                        i + 1,
                        count,
                    )
                } else {
                    spec_dict_line(
                        encode_utf8(e.key@),
                        e.value.files_view().len() as nat,
                        count,
                        sizes,
                    ) + spec_dict_from(
                        s,
                        sizes,
                        i + 1,
                        (count + e.value.files_view().len()) as nat,
                    )
                }
            },
        }
    }
}

/// Every dictionary line is exactly one record long.
pub proof fn lemma_dict_line_len(term: Seq<u8>, nd: nat, start: nat, sizes: FileSizes)
    ensures
        spec_dict_line(term, nd, start, sizes).len() == TERM_LENGTH + sizes.num_docs_length
            + sizes.post_line_start_length + 3,
{
}

/// The dictionary is one record per slot.
pub proof fn lemma_dict_from_len(
    s: Seq<Option<TableEntry<GlobHTBucket>>>,
    sizes: FileSizes,
    i: int,
    count: nat,
)
    requires
        0 <= i <= s.len(),
    ensures
        spec_dict_from(s, sizes, i, count).len() == (s.len() - i) * (TERM_LENGTH as int
            + sizes.num_docs_length + sizes.post_line_start_length + 3),
    decreases s.len() - i,
{
    let rec = TERM_LENGTH as int + sizes.num_docs_length + sizes.post_line_start_length + 3;
    if i < s.len() {
        match s[i] {
            None => {
                lemma_dict_from_len(s, sizes, i + 1, count);
            },
            Some(e) => {
                if is_rare_bucket(e.value.files_view()) {
                    lemma_dict_from_len(s, sizes, i + 1, count);
                } else {
                    lemma_dict_from_len(
                        s,
                        sizes,
                        i + 1,
                        (count + e.value.files_view().len()) as nat,
                    );
                }
            },
        }
        assert((s.len() - i) * rec == rec + (s.len() - i - 1) * rec) by {
            vstd::arithmetic::mul::lemma_mul_is_distributive_sub_other_way(
                rec,
                s.len() - i,
                1,
            );
        }
    } else {
        assert((s.len() - i) * rec == 0) by {
            vstd::arithmetic::mul::lemma_mul_basics_1(rec);
        }
    }
}

/// Appends one dictionary line for `bucket` and returns the updated running
/// posting count: an empty slot writes the `!NULL` sentinel, a rare bucket
/// writes the `!DELETED` tombstone, and neither advances the count.
fn write_dict_line(
    writer: &mut Vec<u8>,
    bucket: &Option<TableEntry<GlobHTBucket>>,
    sizes: &FileSizes,
    count: usize,
) -> (new_count: usize)
    requires
        (match *bucket {
            Some(e) => 0 <= spec_total_freq(e.value.files_view()) <= usize::MAX && count + (
            if !is_rare_bucket(e.value.files_view()) {
                e.value.files_view().len() as int
            } else {
                0int
            }) <= usize::MAX,
            None => true,
        }),
    ensures
        ({
            let line = match *bucket {
                None => spec_dict_line(null_term(), 0, 0, *sizes),
                Some(e) => if is_rare_bucket(e.value.files_view()) {
                    spec_dict_line(deleted_term(), 0, 0, *sizes)
                } else {
                    spec_dict_line(
                        encode_utf8(e.key@),
                        e.value.files_view().len() as nat,
                        count as nat,
                        *sizes,
                    )
                },
            };
            &&& final(writer)@ == old(writer)@ + line
            &&& new_count as int == count + (match *bucket {
                Some(e) => if !is_rare_bucket(e.value.files_view()) {
                    e.value.files_view().len() as int
                } else {
                    0
                },
                None => 0int,
            })
        }),
{
    let mut new_count = count;
    let mut term: Vec<u8> = Vec::new();
    let mut num_docs: usize = 0;
    let mut start: usize = 0;
    match bucket {
        Some(entry) => {
            if entry.value.is_rare() {
                term.push(33);
                term.push(68);
                term.push(69);
                term.push(76);
                term.push(69);
                term.push(84);
                term.push(69);
                term.push(68);
                proof {
                    assert(term@ =~= deleted_term());
                }
            } else {
                term = entry.key.as_str().as_bytes_vec();
                num_docs = entry.value.get_num_docs();
                start = count;
                new_count = count + num_docs;
            }
        },
        None => {
            term.push(33);
            term.push(78);
            term.push(85);
            term.push(76);
            term.push(76);
            proof {
                assert(term@ =~= null_term());
            }
        },
    }
    push_padded(writer, &term, TERM_LENGTH);
    writer.push(SPACE);
    let nd_b = decimal_bytes(num_docs);
    push_padded(writer, &nd_b, sizes.num_docs_length);
    writer.push(SPACE);
    let st_b = decimal_bytes(start);
    push_padded(writer, &st_b, sizes.post_line_start_length);
    writer.push(NEWLINE);
    proof {
        assert(final(writer)@ =~= old(writer)@ + (spec_pad(term@, TERM_LENGTH as nat) + seq![
            SPACE,
        ] + spec_pad(spec_decimal(num_docs as nat), sizes.num_docs_length as nat) + seq![SPACE]
            + spec_pad(spec_decimal(start as nat), sizes.post_line_start_length as nat) + seq![
            NEWLINE,
        ]));
    }
    new_count
}

/// Serializes the dictionary: one fixed-width line per slot, empty slots as
/// `!NULL`, rare terms as `!DELETED`, and each live term with its document
/// count and the line where its postings start.
pub fn write_dict(glob_ht: &HashTable<GlobHTBucket>, sizes: &FileSizes) -> (r: Vec<u8>)
    requires
        slots_measure(glob_ht.slots()) <= usize::MAX,
        spec_total_postings(glob_ht.slots()) <= usize::MAX,
    ensures
        r@ == spec_dict_from(glob_ht.slots(), *sizes, 0, 0),
{
    let buckets = glob_ht.get_buckets();
    let n = buckets.len();
    let ghost s = glob_ht.slots();
    let mut out: Vec<u8> = Vec::new();
    let mut count: usize = 0;
    let mut i: usize = 0;
    proof {
        lemma_slots_measure_nonneg(s);
        crate::data_models::lemma_total_postings_props(s);
        assert(Seq::<u8>::empty() + spec_dict_from(s, *sizes, 0, 0) =~= spec_dict_from(
            s,
            *sizes,
            0,
            0,
        ));
    }
    while i < n
        invariant
            i <= n,
            n == s.len(),
            buckets@ == s,
            slots_measure(s) <= usize::MAX,
            spec_total_postings(s) <= usize::MAX,
            count as int == spec_total_nonrare_prefix(s, i as int),
            count <= spec_total_postings(s),
            spec_dict_from(s, *sizes, 0, 0) == out@ + spec_dict_from(s, *sizes, i as int, count as nat),
        decreases n - i,
    {
        proof {
            if s[i as int] is Some {
                lemma_slot_freq_bound(s, i as int);
            }
            lemma_nonrare_prefix_step(s, i as int);
            lemma_nonrare_prefix_le_total(s, i + 1);
        }
        count = write_dict_line(&mut out, &buckets[i], sizes, count);
        i = i + 1;
    }
    proof {
        assert(spec_dict_from(s, *sizes, n as int, count as nat) =~= Seq::<u8>::empty());
        assert(out@ =~= spec_dict_from(s, *sizes, 0, 0));
    }
    out
}

/// The postings of the non-rare buckets among the first `i` slots.
pub open spec fn spec_total_nonrare_prefix(
    s: Seq<Option<TableEntry<GlobHTBucket>>>,
    i: int,
) -> int
    decreases i,
{
    if i <= 0 {
        0
    } else {
        spec_total_nonrare_prefix(s, i - 1) + (match s[i - 1] {
            Some(e) => if !is_rare_bucket(e.value.files_view()) {
                e.value.files_view().len() as int
            } else {
                0
            },
            None => 0int,
        })
    }
}

proof fn lemma_nonrare_prefix_step(s: Seq<Option<TableEntry<GlobHTBucket>>>, i: int)
    requires
        0 <= i < s.len(),
    ensures
        spec_total_nonrare_prefix(s, i + 1) == spec_total_nonrare_prefix(s, i) + (match s[i] {
            Some(e) => if !is_rare_bucket(e.value.files_view()) {
                e.value.files_view().len() as int
            } else {
                0
            },
            None => 0int,
        }),
{
}

/// Each bucket's total frequency is within the table's measure.
proof fn lemma_slot_freq_bound(s: Seq<Option<TableEntry<GlobHTBucket>>>, i: int)
    requires
        0 <= i < s.len(),
        s[i] is Some,
        slots_measure(s) <= usize::MAX,
    ensures
        0 <= spec_total_freq(s[i]->Some_0.value.files_view()) <= usize::MAX,
{
    lemma_slots_measure_nonneg(s);
    lemma_total_freq_nonneg(s[i]->Some_0.value.files_view());
}

/// The running non-rare posting count never exceeds the total posting count.
pub proof fn lemma_nonrare_prefix_le_total(s: Seq<Option<TableEntry<GlobHTBucket>>>, i: int)
    requires
        0 <= i <= s.len(),
    ensures
        0 <= spec_total_nonrare_prefix(s, i) <= spec_total_postings(s),
    decreases i,
{
    crate::data_models::lemma_total_postings_props(s);
    if i > 0 {
        lemma_nonrare_prefix_le_total(s, i - 1);
        lemma_nonrare_prefix_mono(s, i);
    }
}

/// `spec_total_nonrare_prefix(s, i) <= spec_total_postings(s.take(i))`.
proof fn lemma_nonrare_prefix_mono(s: Seq<Option<TableEntry<GlobHTBucket>>>, i: int)
    requires
        0 <= i <= s.len(),
    ensures
        spec_total_nonrare_prefix(s, i) <= spec_total_postings(s.take(i)),
        spec_total_postings(s.take(i)) <= spec_total_postings(s),
        spec_total_nonrare_prefix(s, i) >= 0,
    decreases i,
{
    crate::data_models::lemma_total_postings_take_le(s, i);
    if i > 0 {
        lemma_nonrare_prefix_mono(s, i - 1);
        crate::data_models::lemma_total_postings_take_step(s, i - 1);
    }
}

// ----- postings -----
/// One fixed-width posting line: document id and quantized TF-IDF weight.
pub open spec fn spec_post_line(f: DocFrequency, nd: int, total: int, sizes: FileSizes) -> Seq<
    u8,
> {
    spec_pad(spec_decimal(f.doc_id as nat), sizes.doc_id_length as nat) + seq![SPACE] + spec_pad(
        spec_decimal(
            spec_weight(
                f.raw_term_frequency as int,
                f.doc_token_count as int,
                total,
                nd,
            ) as nat,
        ),
        sizes.weight_length as nat,
    ) + seq![NEWLINE]
}

/// The posting lines of one bucket from entry `j` on.
pub open spec fn spec_bucket_lines(
    files: Seq<DocFrequency>,
    j: int,
    nd: int,
    total: int,
    sizes: FileSizes,
) -> Seq<u8>
    decreases files.len() - j,
        when j >= 0
{
    if j >= files.len() {
        Seq::empty()
    } else {
        spec_post_line(files[j], nd, total, sizes) + spec_bucket_lines(
            files,
            j + 1,
            nd,
            total,
            sizes,
        )
    }
}

/// The postings bytes from slot `i` on: the non-rare buckets' lines in slot
/// order, each bucket's in insertion order.
pub open spec fn spec_post_from(
    s: Seq<Option<TableEntry<GlobHTBucket>>>,
    i: int,
    total: int,
    sizes: FileSizes,
) -> Seq<u8>
    decreases s.len() - i,
        when i >= 0
{
    if i >= s.len() {
        Seq::empty()
    } else {
        (match s[i] {
            Some(e) => if !is_rare_bucket(e.value.files_view()) {
                spec_bucket_lines(
                    e.value.files_view(),
                    0,
                    e.value.files_view().len() as int,
                    total,
                    sizes,
                )
            } else {
                Seq::empty()
            },
            None => Seq::empty(),
        }) + spec_post_from(s, i + 1, total, sizes)
    }
}

pub proof fn lemma_bucket_lines_len(
    files: Seq<DocFrequency>,
    j: int,
    nd: int,
    total: int,
    sizes: FileSizes,
)
    requires
        0 <= j <= files.len(),
    ensures
        spec_bucket_lines(files, j, nd, total, sizes).len() == (files.len() - j) * (
        sizes.doc_id_length + sizes.weight_length + 2),
    decreases files.len() - j,
{
    let rec = sizes.doc_id_length + sizes.weight_length + 2;
    if j < files.len() {
        lemma_bucket_lines_len(files, j + 1, nd, total, sizes);
        assert((files.len() - j) * rec == rec + (files.len() - j - 1) * rec) by {
            vstd::arithmetic::mul::lemma_mul_is_distributive_sub_other_way(
                rec as int,
                files.len() - j,
                1,
            );
        }
    } else {
        assert((files.len() - j) * rec == 0) by {
            vstd::arithmetic::mul::lemma_mul_basics_1(rec as int);
        }
    }
}

/// The postings file holds exactly one record per posting of the non-rare
/// buckets: the sum of the document counts written to the dictionary equals
/// the number of lines of the postings file.
pub proof fn lemma_post_from_len(
    s: Seq<Option<TableEntry<GlobHTBucket>>>,
    i: int,
    total: int,
    sizes: FileSizes,
)
    requires
        0 <= i <= s.len(),
    ensures
        spec_post_from(s, i, total, sizes).len() == spec_nonrare_postings(s, i) * (
        sizes.doc_id_length + sizes.weight_length + 2),
        spec_nonrare_postings(s, i) >= 0,
    decreases s.len() - i,
{
    let rec = sizes.doc_id_length + sizes.weight_length + 2;
    if i < s.len() {
        lemma_post_from_len(s, i + 1, total, sizes);
        match s[i] {
            Some(e) => {
                if !is_rare_bucket(e.value.files_view()) {
                    lemma_bucket_lines_len(
                        e.value.files_view(),
                        0,
                        e.value.files_view().len() as int,
                        total,
                        sizes,
                    );
                    let nd = e.value.files_view().len() as int;
                    assert((nd + spec_nonrare_postings(s, i + 1)) * rec == nd * rec
                        + spec_nonrare_postings(s, i + 1) * rec) by {
                        vstd::arithmetic::mul::lemma_mul_is_distributive_add_other_way(
                            rec as int,
                            nd,
                            spec_nonrare_postings(s, i + 1),
                        );
                    }
                }
            },
            None => {},
        }
    } else {
        assert(spec_nonrare_postings(s, i) * rec == 0) by {
            vstd::arithmetic::mul::lemma_mul_basics_1(rec as int);
        }
    }
}

/// Serializes the postings: for each non-rare bucket, one line per document
/// holding the term, weighted by the quantized TF-IDF formula.
pub fn write_post(glob_ht: &HashTable<GlobHTBucket>, sizes: &FileSizes, total_docs: usize) -> (r:
    Vec<u8>)
    requires
        slots_measure(glob_ht.slots()) <= usize::MAX,
        glob_slots_wf(glob_ht.slots(), total_docs as int),
    ensures
        r@ == spec_post_from(glob_ht.slots(), 0, total_docs as int, *sizes),
{
    let buckets = glob_ht.get_buckets();
    let n = buckets.len();
    let ghost s = glob_ht.slots();
    let ghost total = total_docs as int;
    let mut out: Vec<u8> = Vec::new();
    let mut i: usize = 0;
    proof {
        lemma_slots_measure_nonneg(s);
        assert(Seq::<u8>::empty() + spec_post_from(s, 0, total, *sizes) =~= spec_post_from(
            s,
            0,
            total,
            *sizes,
        ));
    }
    while i < n
        invariant
            i <= n,
            n == s.len(),
            buckets@ == s,
            total == total_docs as int,
            slots_measure(s) <= usize::MAX,
            glob_slots_wf(s, total),
            spec_post_from(s, 0, total, *sizes) == out@ + spec_post_from(s, i as int, total, *sizes),
        decreases n - i,
    {
        match &buckets[i] {
            Some(entry) => {
                proof {
                    lemma_slot_freq_bound(s, i as int);
                }
                if !entry.value.is_rare() {
                    let files = entry.value.get_files();
                    let nd = files.len();
                    let ghost fv = entry.value.files_view();
                    proof {
                        lemma_bucket_len_le_total(fv, total);
                    }
                    let mut j: usize = 0;
                    proof {
                        assert(out@ + (Seq::<u8>::empty() + spec_bucket_lines(fv, 0, nd as int, total, *sizes))
                            =~= out@ + spec_bucket_lines(fv, 0, nd as int, total, *sizes));
                    }
                    let ghost out0 = out@;
                    while j < nd
                        invariant
                            j <= nd,
                            nd == fv.len(),
                            files@ == fv,
                            total == total_docs as int,
                            bucket_wf(fv, total),
                            1 <= nd <= total,
                            out@ + spec_bucket_lines(fv, j as int, nd as int, total, *sizes)
                                == out0 + spec_bucket_lines(fv, 0, nd as int, total, *sizes),
                        decreases nd - j,
                    {
                        let f = &files[j];
                        let w = tf_idf_weight(
                            f.raw_term_frequency,
                            f.doc_token_count,
                            total_docs,
                            nd,
                        );
                        let id_b = decimal_bytes(f.doc_id);
                        push_padded(&mut out, &id_b, sizes.doc_id_length);
                        out.push(SPACE);
                        let w_b = decimal_bytes(w);
                        push_padded(&mut out, &w_b, sizes.weight_length);
                        out.push(NEWLINE);
                        proof {
                            assert(out@ =~= (out0 + spec_bucket_lines(fv, 0, nd as int, total, *sizes)).subrange(
                                0,
                                out@.len() as int,
                            ).subrange(0, out@.len() as int)) by {
                                assert(out@ + spec_bucket_lines(fv, j + 1, nd as int, total, *sizes)
                                    =~= out0 + spec_bucket_lines(fv, 0, nd as int, total, *sizes)) by {
                                    assert(spec_bucket_lines(fv, j as int, nd as int, total, *sizes)
                                        == spec_post_line(fv[j as int], nd as int, total, *sizes)
                                        + spec_bucket_lines(fv, j + 1, nd as int, total, *sizes));
                                }
                                assert(out@.subrange(0, out@.len() as int) =~= out@);
                            }
                        }
                        j = j + 1;
                    }
                    proof {
                        assert(spec_bucket_lines(fv, nd as int, nd as int, total, *sizes)
                            =~= Seq::<u8>::empty());
                        assert(out@ =~= out0 + spec_bucket_lines(fv, 0, nd as int, total, *sizes));
                    }
                }
            },
            None => {},
        }
        i = i + 1;
    }
    proof {
        assert(spec_post_from(s, n as int, total, *sizes) =~= Seq::<u8>::empty());
        assert(out@ =~= spec_post_from(s, 0, total, *sizes));
    }
    out
}

// ----- the document map -----
/// One fixed-width map line: the document's file name.
pub open spec fn spec_map_line(name: Seq<u8>, sizes: FileSizes) -> Seq<u8> {
    spec_pad(name, sizes.map_name_length as nat) + seq![NEWLINE]
}

/// The map bytes from record `i` on, one line per document in id order.
pub open spec fn spec_map_from(files: Seq<MapRecord>, i: int, sizes: FileSizes) -> Seq<u8>
    decreases files.len() - i,
        when i >= 0
{
    if i >= files.len() {
        Seq::empty()
    } else {
        spec_map_line(encode_utf8(files[i].file_name@), sizes) + spec_map_from(files, i + 1, sizes)
    }
}

pub proof fn lemma_map_from_len(files: Seq<MapRecord>, i: int, sizes: FileSizes)
    requires
        0 <= i <= files.len(),
    ensures
        spec_map_from(files, i, sizes).len() == (files.len() - i) * (sizes.map_name_length + 1),
    decreases files.len() - i,
{
    let rec = sizes.map_name_length + 1;
    if i < files.len() {
        lemma_map_from_len(files, i + 1, sizes);
        assert((files.len() - i) * rec == rec + (files.len() - i - 1) * rec) by {
            vstd::arithmetic::mul::lemma_mul_is_distributive_sub_other_way(
                rec as int,
                files.len() - i,
                1,
            );
        }
    } else {
        assert((files.len() - i) * rec == 0) by {
            vstd::arithmetic::mul::lemma_mul_basics_1(rec as int);
        }
    }
}

/// Serializes the document map: one fixed-width name per line, the line
/// number being the document id.
pub fn write_map(map_files: &Vec<MapRecord>, sizes: &FileSizes) -> (r: Vec<u8>)
    requires
        forall|i: int|
            0 <= i < map_files@.len() ==> (#[trigger] map_files@[i]).file_name@.len()
                <= usize::MAX,
    ensures
        r@ == spec_map_from(map_files@, 0, *sizes),
{
    let n = map_files.len();
    let ghost fs = map_files@;
    let mut out: Vec<u8> = Vec::new();
    let mut i: usize = 0;
    proof {
        assert(Seq::<u8>::empty() + spec_map_from(fs, 0, *sizes) =~= spec_map_from(
            fs,
            0,
            *sizes,
        ));
    }
    while i < n
        invariant
            i <= n,
            n == fs.len(),
            map_files@ == fs,
            forall|q: int|
                0 <= q < fs.len() ==> (#[trigger] fs[q]).file_name@.len() <= usize::MAX,
            spec_map_from(fs, 0, *sizes) == out@ + spec_map_from(fs, i as int, *sizes),
        decreases n - i,
    {
        let name_b = map_files[i].file_name.as_str().as_bytes_vec();
        push_padded(&mut out, &name_b, sizes.map_name_length);
        out.push(NEWLINE);
        proof {
            assert(out@ + spec_map_from(fs, i + 1, *sizes) =~= out@.subrange(
                0,
                out@.len() - 0,
            ) + spec_map_from(fs, i + 1, *sizes));
            assert(spec_map_from(fs, i as int, *sizes) == spec_map_line(
                encode_utf8(fs[i as int].file_name@),
                *sizes,
            ) + spec_map_from(fs, i + 1, *sizes));
            assert(out@ + spec_map_from(fs, i + 1, *sizes) =~= (out@.subrange(
                0,
                out@.len() - (sizes.map_name_length + 1),
            ) + spec_map_from(fs, i as int, *sizes)));
        }
        i = i + 1;
    }
    proof {
        assert(spec_map_from(fs, n as int, *sizes) =~= Seq::<u8>::empty());
        assert(out@ =~= spec_map_from(fs, 0, *sizes));
    }
    out
}

// ----- the sizes sidecar -----

pub open spec fn sizes_lit0() -> Seq<u8> {
    seq![123u8, 34u8, 110u8, 117u8, 109u8, 95u8, 100u8, 105u8, 99u8, 116u8, 95u8, 108u8, 105u8, 110u8, 101u8, 115u8, 34u8, 58u8]
}

pub open spec fn sizes_lit1() -> Seq<u8> {
    seq![44u8, 34u8, 112u8, 111u8, 115u8, 116u8, 95u8, 108u8, 105u8, 110u8, 101u8, 95u8, 115u8, 116u8, 97u8, 114u8, 116u8, 95u8, 108u8, 101u8, 110u8, 103u8, 116u8, 104u8, 34u8, 58u8]
}

pub open spec fn sizes_lit2() -> Seq<u8> {
    seq![44u8, 34u8, 110u8, 117u8, 109u8, 95u8, 100u8, 111u8, 99u8, 115u8, 95u8, 108u8, 101u8, 110u8, 103u8, 116u8, 104u8, 34u8, 58u8]
}

pub open spec fn sizes_lit3() -> Seq<u8> {
    seq![44u8, 34u8, 100u8, 111u8, 99u8, 95u8, 105u8, 100u8, 95u8, 108u8, 101u8, 110u8, 103u8, 116u8, 104u8, 34u8, 58u8]
}

pub open spec fn sizes_lit4() -> Seq<u8> {
    seq![44u8, 34u8, 119u8, 101u8, 105u8, 103u8, 104u8, 116u8, 95u8, 108u8, 101u8, 110u8, 103u8, 116u8, 104u8, 34u8, 58u8]
}

pub open spec fn sizes_lit5() -> Seq<u8> {
    seq![44u8, 34u8, 109u8, 97u8, 112u8, 95u8, 110u8, 97u8, 109u8, 101u8, 95u8, 108u8, 101u8, 110u8, 103u8, 116u8, 104u8, 34u8, 58u8]
}

pub open spec fn sizes_lit6() -> Seq<u8> {
    seq![125u8, 10u8]
}

/// The sizes metadata as one JSON object with the six width fields, followed
/// by a newline.
pub open spec fn spec_sizes_json(fs: FileSizes) -> Seq<u8> {
    sizes_lit0() + spec_decimal(fs.num_dict_lines as nat) + sizes_lit1() + spec_decimal(
        fs.post_line_start_length as nat,
    ) + sizes_lit2() + spec_decimal(fs.num_docs_length as nat) + sizes_lit3() + spec_decimal(
        fs.doc_id_length as nat,
    ) + sizes_lit4() + spec_decimal(fs.weight_length as nat) + sizes_lit5() + spec_decimal(
        fs.map_name_length as nat,
    ) + sizes_lit6()
}


pub(crate) fn sizes_lit0_vec() -> (v: Vec<u8>)
    ensures
        v@ == sizes_lit0(),
{
    let mut v: Vec<u8> = Vec::new();
    v.push(123);
    v.push(34);
    v.push(110);
    v.push(117);
    v.push(109);
    v.push(95);
    v.push(100);
    v.push(105);
    v.push(99);
    v.push(116);
    v.push(95);
    v.push(108);
    v.push(105);
    v.push(110);
    v.push(101);
    v.push(115);
    v.push(34);
    v.push(58);
    proof {
        assert(v@ =~= sizes_lit0());
    }
    v
}

pub(crate) fn sizes_lit1_vec() -> (v: Vec<u8>)
    ensures
        v@ == sizes_lit1(),
{
    let mut v: Vec<u8> = Vec::new();
    v.push(44);
    v.push(34);
    v.push(112);
    v.push(111);
    v.push(115);
    v.push(116);
    v.push(95);
    v.push(108);
    v.push(105);
    v.push(110);
    v.push(101);
    v.push(95);
    v.push(115);
    v.push(116);
    v.push(97);
    v.push(114);
    v.push(116);
    v.push(95);
    v.push(108);
    v.push(101);
    v.push(110);
    v.push(103);
    v.push(116);
    v.push(104);
    v.push(34);
    v.push(58);
    proof {
        assert(v@ =~= sizes_lit1());
    }
    v
}

pub(crate) fn sizes_lit2_vec() -> (v: Vec<u8>)
    ensures
        v@ == sizes_lit2(),
{
    let mut v: Vec<u8> = Vec::new();
    v.push(44);
    v.push(34);
    v.push(110);
    v.push(117);
    v.push(109);
    v.push(95);
    v.push(100);
    v.push(111);
    v.push(99);
    v.push(115);
    v.push(95);
    v.push(108);
    v.push(101);
    v.push(110);
    v.push(103);
    v.push(116);
    v.push(104);
    v.push(34);
    v.push(58);
    proof {
        assert(v@ =~= sizes_lit2());
    }
    v
}

pub(crate) fn sizes_lit3_vec() -> (v: Vec<u8>)
    ensures
        v@ == sizes_lit3(),
{
    let mut v: Vec<u8> = Vec::new();
    v.push(44);
    v.push(34);
    v.push(100);
    v.push(111);
    v.push(99);
    v.push(95);
    v.push(105);
    v.push(100);
    v.push(95);
    v.push(108);
    v.push(101);
    v.push(110);
    v.push(103);
    v.push(116);
    v.push(104);
    v.push(34);
    v.push(58);
    proof {
        assert(v@ =~= sizes_lit3());
    }
    v
}

pub(crate) fn sizes_lit4_vec() -> (v: Vec<u8>)
    ensures
        v@ == sizes_lit4(),
{
    let mut v: Vec<u8> = Vec::new();
    v.push(44);
    v.push(34);
    v.push(119);
    v.push(101);
    v.push(105);
    v.push(103);
    v.push(104);
    v.push(116);
    v.push(95);
    v.push(108);
    v.push(101);
    v.push(110);
    v.push(103);
    v.push(116);
    v.push(104);
    v.push(34);
    v.push(58);
    proof {
        assert(v@ =~= sizes_lit4());
    }
    v
}

pub(crate) fn sizes_lit5_vec() -> (v: Vec<u8>)
    ensures
        v@ == sizes_lit5(),
{
    let mut v: Vec<u8> = Vec::new();
    v.push(44);
    v.push(34);
    v.push(109);
    v.push(97);
    v.push(112);
    v.push(95);
    v.push(110);
    v.push(97);
    v.push(109);
    v.push(101);
    v.push(95);
    v.push(108);
    v.push(101);
    v.push(110);
    v.push(103);
    v.push(116);
    v.push(104);
    v.push(34);
    v.push(58);
    proof {
        assert(v@ =~= sizes_lit5());
    }
    v
}

pub(crate) fn sizes_lit6_vec() -> (v: Vec<u8>)
    ensures
        v@ == sizes_lit6(),
{
    let mut v: Vec<u8> = Vec::new();
    v.push(125);
    v.push(10);
    proof {
        assert(v@ =~= sizes_lit6());
    }
    v
}

/// Serializes the sizes metadata.
pub fn write_sizes(sizes: &FileSizes) -> (r: Vec<u8>)
    ensures
        r@ == spec_sizes_json(*sizes),
{
    let mut out: Vec<u8> = Vec::new();
    let mut part = sizes_lit0_vec();
    out.append(&mut part);
    let mut d = decimal_bytes(sizes.num_dict_lines);
    out.append(&mut d);
    let mut part1 = sizes_lit1_vec();
    out.append(&mut part1);
    let mut d1 = decimal_bytes(sizes.post_line_start_length);
    out.append(&mut d1);
    let mut part2 = sizes_lit2_vec();
    out.append(&mut part2);
    let mut d2 = decimal_bytes(sizes.num_docs_length);
    out.append(&mut d2);
    let mut part3 = sizes_lit3_vec();
    out.append(&mut part3);
    let mut d3 = decimal_bytes(sizes.doc_id_length);
    out.append(&mut d3);
    let mut part4 = sizes_lit4_vec();
    out.append(&mut part4);
    let mut d4 = decimal_bytes(sizes.weight_length);
    out.append(&mut d4);
    let mut part5 = sizes_lit5_vec();
    out.append(&mut part5);
    let mut d5 = decimal_bytes(sizes.map_name_length);
    out.append(&mut d5);
    let mut part6 = sizes_lit6_vec();
    out.append(&mut part6);
    proof {
        assert(out@ =~= spec_sizes_json(*sizes));
    }
    out
}

/// Builds the four index files from the global table and document map:
/// sizes metadata, dictionary, postings, and map, in write order.
pub fn write_output_files(glob_ht: &HashTable<GlobHTBucket>, map_files: &Vec<MapRecord>) -> (r: (
    FileSizes,
    Vec<u8>,
    Vec<u8>,
    Vec<u8>,
    Vec<u8>,
))
    requires
        slots_measure(glob_ht.slots()) <= usize::MAX,
        spec_total_postings(glob_ht.slots()) <= usize::MAX,
        glob_slots_wf(glob_ht.slots(), map_files@.len() as int),
        forall|i: int|
            0 <= i < map_files@.len() ==> (#[trigger] map_files@[i]).file_name@.len()
                <= usize::MAX,
    ensures
        ({
            let (sizes, sizes_b, dict_b, post_b, map_b) = r;
            &&& sizes.num_dict_lines == glob_ht.capacity()
            &&& sizes.post_line_start_length == spec_decimal(
                spec_total_postings(glob_ht.slots()) as nat,
            ).len()
            &&& sizes.num_docs_length == spec_decimal(
                spec_max_num_docs(glob_ht.slots()) as nat,
            ).len()
            &&& sizes.doc_id_length == spec_decimal(map_files@.len() as nat).len()
            &&& sizes.weight_length == spec_decimal(
                (if map_files@.len() == 0 {
                    0int
                } else {
                    spec_idf_scaled(map_files@.len() as int, 1)
                }) as nat,
            ).len()
            &&& sizes.map_name_length == crate::data_models::spec_max_name_len(map_files@)
            &&& sizes_b@ == spec_sizes_json(sizes)
            &&& dict_b@ == spec_dict_from(glob_ht.slots(), sizes, 0, 0)
            &&& post_b@ == spec_post_from(
                glob_ht.slots(),
                0,
                map_files@.len() as int,
                sizes,
            )
            &&& map_b@ == spec_map_from(map_files@, 0, sizes)
            &&& dict_b@.len() == glob_ht.capacity() * (TERM_LENGTH + sizes.num_docs_length
                + sizes.post_line_start_length + 3)
            &&& post_b@.len() == spec_nonrare_postings(glob_ht.slots(), 0) * (
            sizes.doc_id_length + sizes.weight_length + 2)
            &&& map_b@.len() == map_files@.len() * (sizes.map_name_length + 1)
        }),
{
    let sizes = FileSizes::new(glob_ht, map_files);
    let sizes_b = write_sizes(&sizes);
    let dict_b = write_dict(glob_ht, &sizes);
    let post_b = write_post(glob_ht, &sizes, map_files.len());
    let map_b = write_map(map_files, &sizes);
    proof {
        lemma_dict_from_len(glob_ht.slots(), sizes, 0, 0);
        lemma_post_from_len(glob_ht.slots(), 0, map_files@.len() as int, sizes);
        lemma_map_from_len(map_files@, 0, sizes);
    }
    (sizes, sizes_b, dict_b, post_b, map_b)
}

} // verus!
