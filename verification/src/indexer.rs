//! The dictionary/posting aggregator: per-document token counting and the
//! merge of each document's counts into the global posting table.

use vstd::prelude::*;
use crate::constants::DOC_HT_SIZE;
use crate::hashtable::{HashTable, TableEntry, Combine, slots_measure, lemma_contents_measure_le};
use crate::data_models::{DocFrequency, GlobHTBucket, lemma_total_freq_concat,
    lemma_total_freq_nonneg, spec_total_freq};
use crate::parser::{parse, spec_parse};

verus! {

/// The machine bound on inputs handed to the aggregator: small enough that
/// the tables can always grow and counters cannot overflow.
pub open spec fn fits_index_bounds(n: int) -> bool {
    n <= (usize::MAX - 3) / 8
}

/// The tokens of `toks` that are not stopwords, in order.
pub open spec fn spec_retained(toks: Seq<Seq<char>>, stop: Map<Seq<char>, usize>) -> Seq<Seq<char>>
    decreases toks.len(),
{
    if toks.len() == 0 {
        Seq::empty()
    } else {
        let r = spec_retained(toks.drop_last(), stop);
        if !stop.contains_key(toks.last()) {
            r.push(toks.last())
        } else {
            r
        }
    }
}

/// The number of occurrences of `k` in `toks`.
pub open spec fn count_term(toks: Seq<Seq<char>>, k: Seq<char>) -> int
    decreases toks.len(),
{
    if toks.len() == 0 {
        0
    } else {
        count_term(toks.drop_last(), k) + if toks.last() == k {
            1int
        } else {
            0int
        }
    }
}

pub proof fn lemma_count_term_le(toks: Seq<Seq<char>>, k: Seq<char>)
    ensures
        0 <= count_term(toks, k) <= toks.len(),
        count_term(toks, k) >= 1 <==> toks.contains(k),
    decreases toks.len(),
{
    if toks.len() > 0 {
        lemma_count_term_le(toks.drop_last(), k);
        if toks.contains(k) {
            let i = choose|i: int| 0 <= i < toks.len() && toks[i] == k;
            if i < toks.len() - 1 {
                assert(toks.drop_last()[i] == k);
                assert(toks.drop_last().contains(k));
            }
        }
        if count_term(toks, k) >= 1 && !(toks.last() == k) {
            let i = choose|i: int| 0 <= i < toks.drop_last().len() && toks.drop_last()[i] == k;
            assert(toks[i] == k);
        }
    }
}

/// No more retained tokens than tokens.
pub proof fn lemma_retained_len_le(toks: Seq<Seq<char>>, stop: Map<Seq<char>, usize>)
    ensures
        spec_retained(toks, stop).len() <= toks.len(),
    decreases toks.len(),
{
    if toks.len() > 0 {
        lemma_retained_len_le(toks.drop_last(), stop);
    }
}


/// Retention depends only on stopword membership: maps with the same domain
/// retain the same tokens.
pub proof fn lemma_retained_same_domain(
    toks: Seq<Seq<char>>,
    stop1: Map<Seq<char>, usize>,
    stop2: Map<Seq<char>, usize>,
)
    requires
        forall|k: Seq<char>|
            #[trigger] stop1.contains_key(k) <==> stop2.contains_key(k),
    ensures
        spec_retained(toks, stop1) == spec_retained(toks, stop2),
    decreases toks.len(),
{
    if toks.len() > 0 {
        lemma_retained_same_domain(toks.drop_last(), stop1, stop2);
    }
}

/// Step facts for the retained prefix of a token stream.
pub proof fn lemma_retained_take_step(toks: Seq<Seq<char>>, stop: Map<Seq<char>, usize>, i: int)
    requires
        0 <= i < toks.len(),
    ensures
        spec_retained(toks.take(i + 1), stop) == if !stop.contains_key(toks[i]) {
            spec_retained(toks.take(i), stop).push(toks[i])
        } else {
            spec_retained(toks.take(i), stop)
        },
{
    assert(toks.take(i + 1).drop_last() =~= toks.take(i));
    assert(toks.take(i + 1).last() == toks[i]);
}

pub proof fn lemma_count_term_push(toks: Seq<Seq<char>>, k: Seq<char>, t: Seq<char>)
    ensures
        count_term(toks.push(t), k) == count_term(toks, k) + if t == k {
            1int
        } else {
            0int
        },
        toks.push(t).len() == toks.len() + 1,
        toks.push(t).contains(k) <==> (toks.contains(k) || t == k),
{
    assert(toks.push(t).drop_last() =~= toks);
    assert(toks.push(t).last() == t);
    if toks.contains(k) {
        let i = choose|i: int| 0 <= i < toks.len() && toks[i] == k;
        assert(toks.push(t)[i] == k);
    }
    if toks.push(t).contains(k) && t != k {
        let i = choose|i: int| 0 <= i < toks.push(t).len() && toks.push(t)[i] == k;
        assert(toks[i] == k);
    }
}

/// Tokenizes one document's bytes and counts its non-stopword terms.
/// Returns the per-document count table and the retained token count; the
/// table's counts sum to exactly that token count, so the relative term
/// frequencies `count / token_count` sum to one.
pub fn tokenize_file(stop_ht: &HashTable<usize>, contents: &Vec<u8>) -> (r: (
    HashTable<usize>,
    usize,
))
    requires
        stop_ht.wf(),
        stop_ht.capacity() >= 1,
        fits_index_bounds(contents@.len() as int),
    ensures
        ({
            let ret = spec_retained(spec_parse(contents@), stop_ht.contents());
            &&& r.0.wf()
            &&& 1 <= r.0.capacity() <= (usize::MAX - 3) / 2
            &&& r.1 == ret.len()
            &&& slots_measure(r.0.slots()) == r.1 as int
            &&& r.0.num_elems() <= r.1
            &&& (forall|k: Seq<char>|
                #[trigger] r.0.contents().contains_key(k) <==> ret.contains(k))
            &&& (forall|k: Seq<char>|
                #[trigger] r.0.contents().contains_key(k) ==> r.0.contents()[k] as int
                    == count_term(ret, k))
        }),
{
    let text_len = contents.len();
    let mut doc_ht: HashTable<usize> = HashTable::new(DOC_HT_SIZE);
    let tokens = parse(contents);
    let ghost toks = spec_parse(contents@);
    let ghost stop = stop_ht.contents();
    let mut token_count: usize = 0;
    let n = tokens.len();
    proof {
        crate::parser::lemma_spec_tokens_len_bound(contents@, 0);
        assert(toks.take(0) =~= Seq::<Seq<char>>::empty());
        crate::hashtable::lemma_slots_measure_empty(doc_ht.slots());
    }
    let mut i: usize = 0;
    while i < n
        invariant
            i <= n,
            n == toks.len(),
            n <= text_len,
            text_len == contents@.len(),
            fits_index_bounds(text_len as int),
            tokens@.len() == n,
            forall|q: int| 0 <= q < n ==> (#[trigger] tokens@[q])@ == toks[q],
            stop == stop_ht.contents(),
            stop_ht.wf(),
            stop_ht.capacity() >= 1,
            doc_ht.wf(),
            1 <= doc_ht.capacity() <= (usize::MAX - 3) / 2,
            token_count as int == spec_retained(toks.take(i as int), stop).len(),
            token_count <= i,
            doc_ht.num_elems() <= token_count,
            slots_measure(doc_ht.slots()) == token_count as int,
            forall|k: Seq<char>|
                #[trigger] doc_ht.contents().contains_key(k) <==> spec_retained(
                    toks.take(i as int),
                    stop,
                ).contains(k),
            forall|k: Seq<char>|
                #[trigger] doc_ht.contents().contains_key(k) ==> doc_ht.contents()[k] as int
                    == count_term(spec_retained(toks.take(i as int), stop), k),
        decreases n - i,
    {
        let ghost ret_i = spec_retained(toks.take(i as int), stop);
        proof {
            lemma_retained_take_step(toks, stop, i as int);
        }
        let tok = &tokens[i];
        if !stop_ht.intable(tok) {
            let ghost pre = doc_ht;
            proof {
                if doc_ht.contents().contains_key(tok@) {
                    lemma_count_term_le(ret_i, tok@);
                }
                crate::hashtable::lemma_spec_reindexed_len(doc_ht);
            }
            doc_ht.insert_combine(tok, 1);
            token_count = token_count + 1;
            proof {
                let ret_i1 = spec_retained(toks.take(i + 1), stop);
                assert(ret_i1 == ret_i.push(toks[i as int]));
                assert forall|k: Seq<char>|
                    #[trigger] doc_ht.contents().contains_key(k) <==> ret_i1.contains(k) by {
                    lemma_count_term_push(ret_i, k, toks[i as int]);
                    if k != tok@ {
                        assert(pre.contents().remove(tok@).contains_key(k)
                            == pre.contents().contains_key(k));
                        assert(doc_ht.contents().remove(tok@).contains_key(k)
                            == doc_ht.contents().contains_key(k));
                    }
                }
                assert forall|k: Seq<char>|
                    #[trigger] doc_ht.contents().contains_key(k) implies doc_ht.contents()[k]
                    as int == count_term(ret_i1, k) by {
                    lemma_count_term_push(ret_i, k, toks[i as int]);
                    lemma_count_term_le(ret_i, k);
                    if k != tok@ {
                        assert(doc_ht.contents().remove(tok@)[k] == doc_ht.contents()[k]);
                        assert(pre.contents().remove(tok@)[k] == pre.contents()[k]);
                    }
                }
            }
        } else {
            proof {
                assert(spec_retained(toks.take(i + 1), stop) == ret_i);
            }
        }
        i = i + 1;
    }
    proof {
        assert(toks.take(n as int) =~= toks);
    }
    (doc_ht, token_count)
}

/// Builds the stopword table from the stopword file's bytes: every parsed
/// token becomes a key.
pub fn create_stop_ht(stop_contents: &Vec<u8>) -> (r: HashTable<usize>)
    requires
        fits_index_bounds(stop_contents@.len() as int),
    ensures
        r.wf(),
        r.capacity() >= 1,
        forall|k: Seq<char>|
            #[trigger] r.contents().contains_key(k) <==> spec_parse(stop_contents@).contains(k),
{
    let text_len = stop_contents.len();
    let words = parse(stop_contents);
    let ghost toks = spec_parse(stop_contents@);
    let n = words.len();
    proof {
        crate::parser::lemma_spec_tokens_len_bound(stop_contents@, 0);
    }
    let mut stop_ht: HashTable<usize> = HashTable::new(3 * n + 1);
    proof {
        assert((3 * n + 1) % 3 != 0) by {
            vstd::arithmetic::div_mod::lemma_mod_multiples_vanish(n as int, 1, 3);
            vstd::arithmetic::div_mod::lemma_small_mod(1nat, 3nat);
        }
        assert(toks.take(0) =~= Seq::<Seq<char>>::empty());
        crate::hashtable::lemma_slots_measure_empty(stop_ht.slots());
    }
    let mut i: usize = 0;
    while i < n
        invariant
            i <= n,
            n == toks.len(),
            n <= text_len,
            text_len == stop_contents@.len(),
            fits_index_bounds(text_len as int),
            words@.len() == n,
            forall|q: int| 0 <= q < n ==> (#[trigger] words@[q])@ == toks[q],
            stop_ht.wf(),
            1 <= stop_ht.capacity() <= (usize::MAX - 3) / 2,
            stop_ht.num_elems() <= i,
            slots_measure(stop_ht.slots()) == i as int,
            forall|k: Seq<char>|
                #[trigger] stop_ht.contents().contains_key(k) <==> toks.take(i as int).contains(
                    k,
                ),
        decreases n - i,
    {
        let w = &words[i];
        let ghost pre = stop_ht;
        proof {
            if stop_ht.contents().contains_key(w@) {
                lemma_contents_measure_le(stop_ht.slots(), w@);
            }
            crate::hashtable::lemma_spec_reindexed_len(stop_ht);
        }
        stop_ht.insert_combine(w, 1);
        proof {
            assert forall|k: Seq<char>|
                #[trigger] stop_ht.contents().contains_key(k) <==> toks.take(i + 1).contains(
                    k,
                ) by {
                assert(toks.take(i + 1).drop_last() =~= toks.take(i as int));
                assert(toks.take(i + 1).last() == toks[i as int]);
                if k != w@ {
                    assert(pre.contents().remove(w@).contains_key(k) == pre.contents(
                    ).contains_key(k));
                    assert(stop_ht.contents().remove(w@).contains_key(k) == stop_ht.contents(
                    ).contains_key(k));
                }
                if toks.take(i + 1).contains(k) && k != toks[i as int] {
                    let q = choose|q: int| 0 <= q < i + 1 && #[trigger] toks.take(i + 1)[q] == k;
                    assert(toks.take(i as int)[q] == k);
                    assert(toks.take(i as int).contains(k));
                }
                if toks.take(i as int).contains(k) {
                    let q = choose|q: int| 0 <= q < i && #[trigger] toks.take(i as int)[q] == k;
                    assert(toks.take(i + 1)[q] == k);
                }
                assert(toks.take(i + 1)[i as int] == toks[i as int]);
            }
        }
        i = i + 1;
    }
    proof {
        assert(toks.take(n as int) =~= toks);
    }
    stop_ht
}

/// Merges one document's counts into the global table: each term of the
/// document gets one appended posting `(doc_id, count, token_count)`. Holds
/// the whole merge for one document together, so a posting list gets at most
/// one record per document.
pub fn insert_doc_into_glob(
    glob_ht: &mut HashTable<GlobHTBucket>,
    doc_ht: &HashTable<usize>,
    token_count: usize,
    doc_id: usize,
)
    requires
        old(glob_ht).wf(),
        1 <= old(glob_ht).capacity() <= (usize::MAX - 3) / 2,
        doc_ht.wf(),
        slots_measure(doc_ht.slots()) <= token_count,
        slots_measure(old(glob_ht).slots()) + token_count <= (usize::MAX - 3) / 8,
        forall|k: Seq<char>|
            #[trigger] doc_ht.contents().contains_key(k) ==> 1 <= doc_ht.contents()[k]
                <= token_count,
        forall|k: Seq<char>|
            #[trigger] old(glob_ht).contents().contains_key(k) ==> old(glob_ht).contents()[k].measure() >= 1,
    ensures
        final(glob_ht).wf(),
        1 <= final(glob_ht).capacity() <= (usize::MAX - 3) / 2,
        final(glob_ht).capacity() >= old(glob_ht).capacity(),
        slots_measure(final(glob_ht).slots()) == slots_measure(old(glob_ht).slots())
            + slots_measure(doc_ht.slots()),
        forall|k: Seq<char>|
            #[trigger] final(glob_ht).contents().contains_key(k) <==> (old(glob_ht).contents().contains_key(k) || doc_ht.contents().contains_key(k)),
        forall|k: Seq<char>|
            doc_ht.contents().contains_key(k) ==> #[trigger] final(glob_ht).contents()[k].files_view() =~= (if old(glob_ht).contents().contains_key(k) {
                old(glob_ht).contents()[k].files_view()
            } else {
                Seq::<DocFrequency>::empty()
            }) + seq![
                (DocFrequency {
                    doc_id,
                    raw_term_frequency: doc_ht.contents()[k],
                    doc_token_count: token_count,
                }),
            ],
        forall|k: Seq<char>|
            !doc_ht.contents().contains_key(k) ==> (#[trigger] final(glob_ht).contents().contains_key(k) ==> final(glob_ht).contents()[k] == old(glob_ht).contents()[k]),
        forall|k: Seq<char>|
            #[trigger] final(glob_ht).contents().contains_key(k) ==> final(glob_ht).contents()[k].measure() >= 1,
{
    let buckets = doc_ht.get_buckets();
    let n = buckets.len();
    let ghost docslots = doc_ht.slots();
    let ghost glob0 = *glob_ht;
    let mut i: usize = 0;
    proof {
        assert(docslots.take(0) =~= Seq::<Option<TableEntry<usize>>>::empty());
        crate::hashtable::lemma_slots_measure_nonneg(docslots);
        crate::hashtable::lemma_slots_measure_nonneg(glob0.slots());
    }
    while i < n
        invariant
            i <= n,
            n == docslots.len(),
            buckets@ == docslots,
            doc_ht.wf(),
            docslots == doc_ht.slots(),
            glob_ht.wf(),
            1 <= glob_ht.capacity() <= (usize::MAX - 3) / 2,
            glob_ht.capacity() >= glob0.capacity(),
            slots_measure(glob0.slots()) + token_count <= (usize::MAX - 3) / 8,
            slots_measure(docslots) <= token_count,
            forall|k: Seq<char>|
                #[trigger] doc_ht.contents().contains_key(k) ==> 1 <= doc_ht.contents()[k]
                    <= token_count,
            slots_measure(glob_ht.slots()) == slots_measure(glob0.slots()) + slots_measure(
                docslots.take(i as int),
            ),
            slots_measure(docslots.take(i as int)) <= slots_measure(docslots),
            forall|k: Seq<char>|
                #[trigger] glob_ht.contents().contains_key(k) <==> (glob0.contents().contains_key(
                    k,
                ) || crate::hashtable::entries_map(docslots.take(i as int)).contains_key(k)),
            forall|k: Seq<char>|
                crate::hashtable::entries_map(docslots.take(i as int)).contains_key(k)
                    ==> #[trigger] glob_ht.contents()[k].files_view() =~= (if glob0.contents(
                ).contains_key(k) {
                    glob0.contents()[k].files_view()
                } else {
                    Seq::<DocFrequency>::empty()
                }) + seq![
                    (DocFrequency {
                        doc_id,
                        raw_term_frequency: doc_ht.contents()[k],
                        doc_token_count: token_count,
                    }),
                ],
            forall|k: Seq<char>|
                !crate::hashtable::entries_map(docslots.take(i as int)).contains_key(k) ==> (
                #[trigger] glob_ht.contents().contains_key(k) ==> glob_ht.contents()[k]
                    == glob0.contents()[k]),
            forall|k: Seq<char>|
                #[trigger] glob0.contents().contains_key(k) ==> glob0.contents()[k].measure()
                    >= 1,
            forall|k: Seq<char>|
                #[trigger] glob_ht.contents().contains_key(k) ==> glob_ht.contents()[k].measure()
                    >= 1,
        decreases n - i,
    {
        proof {
            assert(docslots.take(i + 1).drop_last() =~= docslots.take(i as int));
            assert(docslots.take(i + 1).last() == docslots[i as int]);
            crate::hashtable::lemma_slots_measure_take_step(docslots, i as int);
            lemma_slots_measure_take_le_h(docslots, i + 1);
        }
        match &buckets[i] {
            Some(entry) => {
                let raw: usize = entry.value;
                let record = GlobHTBucket::new(doc_id, raw, token_count);
                let ghost pre = *glob_ht;
                let ghost k0 = entry.key@;
                proof {
                    // the slot's key maps to the slot's value in the doc table
                    assert forall|i2: int|
                        0 <= i2 < docslots.len() && #[trigger] docslots[i2] is Some && i2
                            != i as int implies crate::hashtable::slot_key(docslots[i2])
                        != crate::hashtable::slot_key(docslots[i as int]) by {
                        if crate::hashtable::slot_key(docslots[i2]) == crate::hashtable::slot_key(
                            docslots[i as int],
                        ) {
                            crate::hashtable::lemma_key_unique(docslots, i2, i as int);
                        }
                    }
                    crate::hashtable::lemma_entries_map_value(docslots, i as int);
                    assert(doc_ht.contents().contains_key(k0));
                    assert(doc_ht.contents()[k0] == raw);
                    assert(spec_total_freq(record.files_view()) == raw as int) by {
                        assert(record.files_view().drop_last() =~= Seq::<DocFrequency>::empty());
                        assert(spec_total_freq(Seq::<DocFrequency>::empty()) == 0);
                    }
                    lemma_total_freq_nonneg(record.files_view());
                    // the key of this slot has not been merged yet: the doc
                    // table's keys are unique
                    assert(!crate::hashtable::entries_map(docslots.take(i as int)).contains_key(
                        k0,
                    )) by {
                        crate::hashtable::lemma_entries_map_domain(docslots.take(i as int), k0);
                        if crate::hashtable::has_key(docslots.take(i as int), k0) {
                            let i2 = choose|i2: int|
                                0 <= i2 < docslots.take(i as int).len() && #[trigger] docslots.take(
                                    i as int,
                                )[i2] is Some && crate::hashtable::slot_key(
                                    docslots.take(i as int)[i2],
                                ) == k0;
                            assert(docslots[i2] is Some && crate::hashtable::slot_key(
                                docslots[i2],
                            ) == k0);
                            crate::hashtable::lemma_key_unique(docslots, i2, i as int);
                        }
                    }
                    if pre.contents().contains_key(k0) {
                        lemma_contents_measure_le(pre.slots(), k0);
                        lemma_total_freq_concat(
                            pre.contents()[k0].files_view(),
                            record.files_view(),
                        );
                        assert(pre.contents()[k0] == glob0.contents()[k0]);
                    }
                    crate::hashtable::lemma_spec_reindexed_len(*glob_ht);
                    crate::hashtable::lemma_num_le_measure(glob_ht.slots());
                    crate::hashtable::lemma_slots_measure_nonneg(docslots.take(i as int));
                }
                glob_ht.insert_combine(&entry.key, record);
                proof {
                    assert(spec_total_freq(record.files_view()) == raw as int);
                    assert(slots_measure(glob_ht.slots()) == slots_measure(pre.slots())
                        + raw as int);
                    assert(1 <= glob_ht.capacity() <= (usize::MAX - 3) / 2) by {
                        assert(glob_ht.slots().len() == pre.spec_reindexed().len());
                        assert(pre.num_elems() <= slots_measure(pre.slots()));
                        assert(slots_measure(pre.slots()) <= slots_measure(glob0.slots())
                            + token_count);
                    }
                    assert forall|k: Seq<char>|
                        #[trigger] glob_ht.contents().contains_key(k)
                            implies glob_ht.contents()[k].measure() >= 1 by {
                        if k == k0 {
                            if pre.contents().contains_key(k0) {
                                crate::hashtable::Combine::lemma_combine_measure(
                                    &pre.contents()[k0],
                                    &record,
                                    &glob_ht.contents()[k0],
                                );
                            }
                        } else {
                            assert(glob_ht.contents().remove(k0)[k] == glob_ht.contents()[k]);
                            assert(pre.contents().remove(k0)[k] == pre.contents()[k]);
                            assert(glob_ht.contents().remove(k0).contains_key(k)
                                == glob_ht.contents().contains_key(k));
                            assert(pre.contents().remove(k0).contains_key(k) == pre.contents(
                            ).contains_key(k));
                        }
                    }
                    assert forall|k: Seq<char>|
                        #[trigger] glob_ht.contents().contains_key(k) <==> (
                        glob0.contents().contains_key(k) || crate::hashtable::entries_map(
                            docslots.take(i + 1),
                        ).contains_key(k)) by {
                        if k != k0 {
                            assert(pre.contents().remove(k0).contains_key(k) == pre.contents(
                            ).contains_key(k));
                            assert(glob_ht.contents().remove(k0).contains_key(k)
                                == glob_ht.contents().contains_key(k));
                        }
                    }
                    assert forall|k: Seq<char>|
                        crate::hashtable::entries_map(docslots.take(i + 1)).contains_key(k)
                            implies #[trigger] glob_ht.contents()[k].files_view() =~= (if glob0
                        .contents().contains_key(k) {
                        glob0.contents()[k].files_view()
                    } else {
                        Seq::<DocFrequency>::empty()
                    }) + seq![
                        (DocFrequency {
                            doc_id,
                            raw_term_frequency: doc_ht.contents()[k],
                            doc_token_count: token_count,
                        }),
                    ] by {
                        if k == k0 {
                            if pre.contents().contains_key(k0) {
                                assert(pre.contents()[k0].combines_to(
                                    &record,
                                    &glob_ht.contents()[k0],
                                ));
                            } else {
                                assert(glob_ht.contents()[k0] == record);
                                assert(glob_ht.contents()[k0].files_view() =~= Seq::<
                                    DocFrequency,
                                >::empty() + record.files_view());
                            }
                        } else {
                            assert(glob_ht.contents().remove(k0)[k] == glob_ht.contents()[k]);
                            assert(pre.contents().remove(k0)[k] == pre.contents()[k]);
                        }
                    }
                    assert forall|k: Seq<char>|
                        !crate::hashtable::entries_map(docslots.take(i + 1)).contains_key(k)
                            implies (#[trigger] glob_ht.contents().contains_key(k)
                            ==> glob_ht.contents()[k] == glob0.contents()[k]) by {
                        if k != k0 {
                            assert(glob_ht.contents().remove(k0)[k] == glob_ht.contents()[k]);
                            assert(pre.contents().remove(k0)[k] == pre.contents()[k]);
                            assert(glob_ht.contents().remove(k0).contains_key(k)
                                == glob_ht.contents().contains_key(k));
                            assert(pre.contents().remove(k0).contains_key(k) == pre.contents(
                            ).contains_key(k));
                        }
                    }
                }
            },
            None => {},
        }
        i = i + 1;
    }
    proof {
        assert(docslots.take(n as int) =~= docslots);
    }
}

proof fn lemma_slots_measure_take_le_h(s: Seq<Option<TableEntry<usize>>>, i: int)
    requires
        0 <= i <= s.len(),
    ensures
        slots_measure(s.take(i)) <= slots_measure(s),
    decreases s.len() - i,
{
    if i < s.len() {
        crate::hashtable::lemma_slots_measure_take_step(s, i);
        lemma_slots_measure_take_le_h(s, i + 1);
        crate::hashtable::lemma_slots_measure_nonneg(s.take(i));
    } else {
        assert(s.take(i) =~= s);
    }
}


/// The retained tokens of one document's bytes.
pub open spec fn doc_terms(content: Seq<u8>, stop: Map<Seq<char>, usize>) -> Seq<Seq<char>> {
    spec_retained(spec_parse(content), stop)
}

/// The posting list of term `k` over the first documents of the corpus:
/// one record per document holding the term, in document order, with the
/// term's count and the document's retained token count.
pub open spec fn corpus_postings(
    docs: Seq<(String, Vec<u8>)>,
    stop: Map<Seq<char>, usize>,
    k: Seq<char>,
    upto: int,
) -> Seq<DocFrequency>
    decreases upto,
{
    if upto <= 0 {
        Seq::empty()
    } else {
        let rest = corpus_postings(docs, stop, k, upto - 1);
        let terms = doc_terms(docs[upto - 1].1@, stop);
        if terms.contains(k) {
            rest.push(
                (DocFrequency {
                    doc_id: (upto - 1) as usize,
                    raw_term_frequency: count_term(terms, k) as usize,
                    doc_token_count: terms.len() as usize,
                }),
            )
        } else {
            rest
        }
    }
}

/// The total byte length of a corpus's documents.
pub open spec fn spec_corpus_bytes(docs: Seq<(String, Vec<u8>)>) -> int
    decreases docs.len(),
{
    if docs.len() == 0 {
        0
    } else {
        spec_corpus_bytes(docs.drop_last()) + docs.last().1@.len()
    }
}

proof fn lemma_corpus_bytes_take(docs: Seq<(String, Vec<u8>)>, i: int)
    requires
        0 <= i < docs.len(),
    ensures
        spec_corpus_bytes(docs.take(i + 1)) == spec_corpus_bytes(docs.take(i))
            + docs[i].1@.len(),
        spec_corpus_bytes(docs.take(i)) >= 0,
    decreases i,
{
    assert(docs.take(i + 1).drop_last() =~= docs.take(i));
    assert(docs.take(i + 1).last() == docs[i]);
    if i > 0 {
        lemma_corpus_bytes_take(docs, i - 1);
    } else {
        assert(docs.take(0) =~= Seq::<(String, Vec<u8>)>::empty());
    }
}

proof fn lemma_corpus_bytes_take_le(docs: Seq<(String, Vec<u8>)>, i: int)
    requires
        0 <= i <= docs.len(),
    ensures
        spec_corpus_bytes(docs.take(i)) <= spec_corpus_bytes(docs),
        spec_corpus_bytes(docs.take(i)) >= 0,
    decreases docs.len() - i,
{
    if i < docs.len() {
        lemma_corpus_bytes_take(docs, i);
        lemma_corpus_bytes_take_le(docs, i + 1);
    } else {
        assert(docs.take(i) =~= docs);
        if docs.len() > 0 {
            lemma_corpus_bytes_take(docs, docs.len() - 1);
        }
    }
}



proof fn lemma_corpus_postings_step(
    docs: Seq<(String, Vec<u8>)>,
    stop: Map<Seq<char>, usize>,
    k: Seq<char>,
    i: int,
)
    requires
        0 <= i < docs.len(),
    ensures
        corpus_postings(docs, stop, k, i + 1) == (if doc_terms(docs[i].1@, stop).contains(k) {
            corpus_postings(docs, stop, k, i).push(
                (DocFrequency {
                    doc_id: i as usize,
                    raw_term_frequency: count_term(doc_terms(docs[i].1@, stop), k) as usize,
                    doc_token_count: doc_terms(docs[i].1@, stop).len() as usize,
                }),
            )
        } else {
            corpus_postings(docs, stop, k, i)
        }),
{
}

/// The four byte buffers are the writers' output for table `glob` and map
/// records `maps`, with widths `sizes`.
pub open spec fn index_outputs_of(
    glob: HashTable<GlobHTBucket>,
    maps: Seq<crate::data_models::MapRecord>,
    sizes: crate::data_models::FileSizes,
    sizes_b: Seq<u8>,
    dict_b: Seq<u8>,
    post_b: Seq<u8>,
    map_b: Seq<u8>,
) -> bool {
    &&& sizes_b == crate::write_query_files::spec_sizes_json(sizes)
    &&& dict_b == crate::write_query_files::spec_dict_from(glob.slots(), sizes, 0, 0)
    &&& post_b == crate::write_query_files::spec_post_from(
        glob.slots(),
        0,
        maps.len() as int,
        sizes,
    )
    &&& map_b == crate::write_query_files::spec_map_from(maps, 0, sizes)
}

/// The table and map records aggregate the corpus: one map record per
/// document in order, and under every term exactly its posting list over
/// the corpus.
pub open spec fn corpus_table(
    docs: Seq<(String, Vec<u8>)>,
    stop_tokens: Seq<Seq<char>>,
    glob: HashTable<GlobHTBucket>,
    maps: Seq<crate::data_models::MapRecord>,
) -> bool {
    &&& glob.wf()
    &&& maps.len() == docs.len()
    &&& (forall|q: int|
        0 <= q < docs.len() ==> (#[trigger] maps[q]).file_name@ == docs[q].0@ && maps[q].doc_id
            == q)
    &&& (forall|k: Seq<char>|
        #[trigger] glob.contents().contains_key(k) ==> glob.contents()[k].files_view()
            =~= corpus_postings_all(docs, stop_tokens, k))
    &&& (forall|k: Seq<char>|
        corpus_postings_all(docs, stop_tokens, k).len() > 0
            ==> #[trigger] glob.contents().contains_key(k))
}

/// The posting list of `k` over the whole corpus, stopwords given as the
/// stopword file's token stream.
pub open spec fn corpus_postings_all(
    docs: Seq<(String, Vec<u8>)>,
    stop_tokens: Seq<Seq<char>>,
    k: Seq<char>,
) -> Seq<DocFrequency> {
    corpus_postings(docs, stop_map_of(stop_tokens), k, docs.len() as int)
}

/// Stopword membership as a map domain: exactly the tokens of the stopword
/// file.
pub open spec fn stop_map_of(stop_tokens: Seq<Seq<char>>) -> Map<Seq<char>, usize> {
    Map::new(|k: Seq<char>| stop_tokens.contains(k), |k: Seq<char>| 1usize)
}

/// Builds the whole index for a corpus, single-threaded: tokenizes each
/// document in order, merges into a global table of `glob_capacity` slots,
/// and serializes the four files. An empty corpus yields a dictionary of
/// `!NULL` sentinels only and empty postings and map files.
pub fn index_corpus(
    docs: &Vec<(String, Vec<u8>)>,
    stop_contents: &Vec<u8>,
    glob_capacity: usize,
) -> (r: (crate::data_models::FileSizes, Vec<u8>, Vec<u8>, Vec<u8>, Vec<u8>))
    requires
        glob_capacity % 3 != 0,
        glob_capacity <= (usize::MAX - 3) / 2,
        fits_index_bounds(stop_contents@.len() as int),
        fits_index_bounds(spec_corpus_bytes(docs@)),
        fits_index_bounds(docs@.len() as int),
        forall|i: int|
            0 <= i < docs@.len() ==> (#[trigger] docs@[i]).0@.len() <= usize::MAX,
    ensures
        ({
            let (sizes, sizes_b, dict_b, post_b, map_b) = r;
            &&& sizes_b@ == crate::write_query_files::spec_sizes_json(sizes)
            &&& sizes.num_dict_lines >= glob_capacity
            &&& dict_b@.len() == sizes.num_dict_lines * (crate::constants::TERM_LENGTH
                + sizes.num_docs_length + sizes.post_line_start_length + 3)
            &&& map_b@.len() == docs@.len() * (sizes.map_name_length + 1)
            &&& (docs@.len() == 0 ==> sizes.num_dict_lines == glob_capacity)
            &&& (docs@.len() == 0 ==> post_b@.len() == 0 && map_b@.len() == 0)
            &&& (docs@.len() == 0 ==> forall|h: int|
                0 <= h < glob_capacity ==> (#[trigger] crate::read_query_files::spec_dict_slot(
                    dict_b@,
                    sizes,
                    h,
                ) matches Some(rec) && rec.0 =~= crate::write_query_files::null_term()
                    && rec.1 == 0 && rec.2 == 0))
            &&& exists|glob: HashTable<GlobHTBucket>, maps: Seq<crate::data_models::MapRecord>|
                #[trigger] index_outputs_of(glob, maps, sizes, sizes_b@, dict_b@, post_b@, map_b@)
                    && corpus_table(docs@, spec_parse(stop_contents@), glob, maps)
        }),
{
    let stop_ht = create_stop_ht(stop_contents);
    let mut glob_ht: HashTable<GlobHTBucket> = HashTable::new(glob_capacity);
    let mut map_files: Vec<crate::data_models::MapRecord> = Vec::new();
    let n = docs.len();
    let mut i: usize = 0;
    proof {
        crate::hashtable::lemma_slots_measure_empty(glob_ht.slots());
        assert(docs@.take(0) =~= Seq::<(String, Vec<u8>)>::empty());
        lemma_corpus_bytes_take_le(docs@, 0);
        assert(forall|k: Seq<char>|
            #[trigger] stop_ht.contents().contains_key(k) <==> stop_map_of(
                spec_parse(stop_contents@),
            ).contains_key(k));
    }
    while i < n
        invariant
            i <= n,
            n == docs@.len(),
            fits_index_bounds(spec_corpus_bytes(docs@)),
            fits_index_bounds(docs@.len() as int),
            forall|q: int|
                0 <= q < docs@.len() ==> (#[trigger] docs@[q]).0@.len() <= usize::MAX,
            stop_ht.wf(),
            stop_ht.capacity() >= 1,
            glob_ht.wf(),
            1 <= glob_ht.capacity() <= (usize::MAX - 3) / 2,
            glob_ht.capacity() >= glob_capacity,
            slots_measure(glob_ht.slots()) <= spec_corpus_bytes(docs@.take(i as int)),
            spec_corpus_bytes(docs@.take(i as int)) <= spec_corpus_bytes(docs@),
            map_files@.len() == i,
            forall|q: int|
                0 <= q < i ==> (#[trigger] map_files@[q]).file_name@ == docs@[q].0@
                    && map_files@[q].doc_id == q,
            forall|k: Seq<char>|
                #[trigger] glob_ht.contents().contains_key(k)
                    ==> glob_ht.contents()[k].measure() >= 1,
            forall|k: Seq<char>|
                #[trigger] glob_ht.contents().contains_key(k)
                    ==> crate::write_query_files::bucket_wf(
                    glob_ht.contents()[k].files_view(),
                    i as int,
                ),
            forall|k: Seq<char>|
                #[trigger] glob_ht.contents().contains_key(k)
                    ==> glob_ht.contents()[k].files_view() =~= corpus_postings(
                    docs@,
                    stop_map_of(spec_parse(stop_contents@)),
                    k,
                    i as int,
                ),
            forall|k: Seq<char>|
                corpus_postings(docs@, stop_map_of(spec_parse(stop_contents@)), k, i as int).len()
                    > 0 ==> #[trigger] glob_ht.contents().contains_key(k),
            forall|k: Seq<char>|
                #[trigger] stop_ht.contents().contains_key(k) <==> stop_map_of(
                    spec_parse(stop_contents@),
                ).contains_key(k),
            n == 0 ==> (forall|q: int|
                0 <= q < glob_ht.slots().len() ==> !(#[trigger] glob_ht.slots()[q] is Some)),
            n == 0 ==> glob_ht.capacity() == glob_capacity,
        decreases n - i,
    {
        proof {
            lemma_corpus_bytes_take(docs@, i as int);
            lemma_corpus_bytes_take_le(docs@, i + 1);
        }
        let ghost preglob = glob_ht;
        let ghost smap = stop_map_of(spec_parse(stop_contents@));
        let (doc_ht, token_count) = tokenize_file(&stop_ht, &docs[i].1);
        proof {
            // the token count is bounded by the document's byte length
            crate::parser::lemma_spec_tokens_len_bound(docs@[i as int].1@, 0);
            lemma_retained_len_le(spec_parse(docs@[i as int].1@), stop_ht.contents());
            assert(token_count <= docs@[i as int].1@.len());
            lemma_retained_same_domain(
                spec_parse(docs@[i as int].1@),
                stop_ht.contents(),
                smap,
            );
            assert(spec_retained(spec_parse(docs@[i as int].1@), stop_ht.contents())
                == doc_terms(docs@[i as int].1@, smap));
            // every count is at least one and at most the token count
            assert forall|k: Seq<char>|
                #[trigger] doc_ht.contents().contains_key(k) implies 1 <= doc_ht.contents()[k]
                <= token_count by {
                let ret = spec_retained(
                    spec_parse(docs@[i as int].1@),
                    stop_ht.contents(),
                );
                lemma_count_term_le(ret, k);
            }
            assert(slots_measure(glob_ht.slots()) + token_count <= (usize::MAX - 3) / 8);
        }
        insert_doc_into_glob(&mut glob_ht, &doc_ht, token_count, i);
        let name = clone_str(&docs[i].0);
        map_files.push(crate::data_models::MapRecord { doc_id: i, file_name: name });
        proof {
            let terms = doc_terms(docs@[i as int].1@, smap);
            assert forall|k: Seq<char>|
                #[trigger] glob_ht.contents().contains_key(k) implies glob_ht.contents(
            )[k].files_view() =~= corpus_postings(docs@, smap, k, i + 1) by {
                lemma_corpus_postings_step(docs@, smap, k, i as int);
                lemma_count_term_le(terms, k);
                if doc_ht.contents().contains_key(k) {
                    assert(terms.contains(k));
                    if preglob.contents().contains_key(k) {
                        assert(preglob.contents()[k].files_view() =~= corpus_postings(
                            docs@,
                            smap,
                            k,
                            i as int,
                        ));
                    } else {
                        assert(corpus_postings(docs@, smap, k, i as int).len() == 0);
                        assert(corpus_postings(docs@, smap, k, i as int)
                            =~= Seq::<DocFrequency>::empty());
                    }
                } else {
                    assert(!terms.contains(k));
                    assert(glob_ht.contents()[k] == preglob.contents()[k]);
                }
            }
            assert forall|k: Seq<char>|
                corpus_postings(docs@, smap, k, i + 1).len() > 0 implies #[trigger] glob_ht.contents().contains_key(k) by {
                lemma_corpus_postings_step(docs@, smap, k, i as int);
                lemma_count_term_le(terms, k);
                if corpus_postings(docs@, smap, k, i as int).len() > 0 {
                    assert(preglob.contents().contains_key(k));
                } else {
                    assert(terms.contains(k));
                    assert(doc_ht.contents().contains_key(k));
                }
            }
            assert forall|k: Seq<char>|
                #[trigger] glob_ht.contents().contains_key(k)
                    implies crate::write_query_files::bucket_wf(
                glob_ht.contents()[k].files_view(),
                i + 1,
            ) by {
                if doc_ht.contents().contains_key(k) {
                    let oldf = if preglob.contents().contains_key(k) {
                        preglob.contents()[k].files_view()
                    } else {
                        Seq::<DocFrequency>::empty()
                    };
                    let newf = glob_ht.contents()[k].files_view();
                    assert(newf.len() == oldf.len() + 1);
                    assert(newf[newf.len() - 1].doc_id == i);
                    assert forall|j1: int, j2: int|
                        0 <= j1 < j2 < newf.len() implies (#[trigger] newf[j1]).doc_id < (
                    #[trigger] newf[j2]).doc_id by {
                        if j2 < newf.len() - 1 {
                            assert(newf[j1] == oldf[j1] && newf[j2] == oldf[j2]);
                        } else {
                            if j1 < newf.len() - 1 {
                                assert(newf[j1] == oldf[j1]);
                                assert(oldf[j1].doc_id < i);
                            }
                        }
                    }
                } else {
                    assert(glob_ht.contents()[k] == preglob.contents()[k]);
                }
            }
        }
        i = i + 1;
    }
    proof {
        assert(docs@.take(n as int) =~= docs@);
        crate::hashtable::lemma_slots_measure_nonneg(glob_ht.slots());
        // slot-level well-formedness from the contents-level invariant
        assert(crate::write_query_files::glob_slots_wf(glob_ht.slots(), n as int)) by {
            let s = glob_ht.slots();
            assert forall|q: int|
                0 <= q < s.len() && #[trigger] s[q] is Some
                    implies crate::write_query_files::bucket_wf(
                s[q]->Some_0.value.files_view(),
                n as int,
            ) by {
                let k = crate::hashtable::slot_key(s[q]);
                assert(crate::hashtable::has_key(s, k)) by {
                    assert(s[q] is Some && crate::hashtable::slot_key(s[q]) == k);
                }
                crate::hashtable::lemma_entries_map_domain(s, k);
                assert(glob_ht.contents().contains_key(k));
                assert forall|q2: int|
                    0 <= q2 < s.len() && #[trigger] s[q2] is Some && q2 != q
                        implies crate::hashtable::slot_key(s[q2]) != crate::hashtable::slot_key(
                    s[q],
                ) by {
                    if crate::hashtable::slot_key(s[q2]) == crate::hashtable::slot_key(s[q]) {
                        crate::hashtable::lemma_key_unique(s, q2, q);
                    }
                }
                crate::hashtable::lemma_entries_map_value(s, q);
                assert(crate::hashtable::entries_map(s)[k] == s[q]->Some_0.value);
            }
        }
        // bounded posting count: at most one posting per document per term
        assert(crate::data_models::spec_total_postings(glob_ht.slots()) <= usize::MAX) by {
            lemma_postings_le_measure(glob_ht.slots());
        }
    }
    let r = crate::write_query_files::write_output_files(&glob_ht, &map_files);
    proof {
        assert(index_outputs_of(glob_ht, map_files@, r.0, r.1@, r.2@, r.3@, r.4@));
        assert(corpus_table(docs@, spec_parse(stop_contents@), glob_ht, map_files@));
        if docs@.len() == 0 {
            assert(map_files@.len() == 0);
            assert(crate::write_query_files::spec_nonrare_postings(glob_ht.slots(), 0) == 0) by {
                lemma_nonrare_empty(glob_ht.slots(), 0);
            }
            assert(r.3@.len() == 0) by {
                vstd::arithmetic::mul::lemma_mul_basics_1(
                    (r.0.doc_id_length + r.0.weight_length + 2) as int,
                );
            }
            assert(r.4@.len() == 0) by {
                vstd::arithmetic::mul::lemma_mul_basics_1((r.0.map_name_length + 1) as int);
            }
            assert forall|h: int| 0 <= h < glob_capacity implies (
            #[trigger] crate::read_query_files::spec_dict_slot(r.2@, r.0, h) matches Some(rec)
                && rec.0 =~= crate::write_query_files::null_term() && rec.1 == 0 && rec.2
                == 0) by {
                crate::read_query_files::lemma_null_dict_slot(glob_ht.slots(), r.0, h, r.2@);
            }
        }
    }
    r
}

/// Copies a string.
fn clone_str(s: &String) -> (r: String)
    ensures
        r@ == s@,
{
    s.clone()
}

/// Each bucket contributes at least one unit of measure per posting, so the
/// posting count is bounded by the table's measure.
proof fn lemma_postings_le_measure(s: Seq<Option<TableEntry<GlobHTBucket>>>)
    requires
        forall|i: int|
            0 <= i < s.len() && #[trigger] s[i] is Some ==> crate::write_query_files::bucket_wf(
                s[i]->Some_0.value.files_view(),
                s.len() as int,
            ) || true,
        forall|i: int|
            0 <= i < s.len() && #[trigger] s[i] is Some ==> bucket_counts_ge_one(
                s[i]->Some_0.value.files_view(),
            ),
        slots_measure(s) <= usize::MAX,
    ensures
        crate::data_models::spec_total_postings(s) <= slots_measure(s),
    decreases s.len(),
{
    if s.len() > 0 {
        assert(forall|i: int|
            0 <= i < s.drop_last().len() && #[trigger] s.drop_last()[i] is Some
                ==> bucket_counts_ge_one(s.drop_last()[i]->Some_0.value.files_view()));
        crate::hashtable::lemma_slots_measure_nonneg(s.drop_last());
        crate::data_models::lemma_total_postings_props(s.drop_last());
        lemma_postings_le_measure_h(s);
    }
}

pub open spec fn bucket_counts_ge_one(files: Seq<DocFrequency>) -> bool {
    forall|j: int| 0 <= j < files.len() ==> (#[trigger] files[j]).raw_term_frequency >= 1
}

proof fn lemma_postings_le_measure_h(s: Seq<Option<TableEntry<GlobHTBucket>>>)
    requires
        forall|i: int|
            0 <= i < s.len() && #[trigger] s[i] is Some ==> bucket_counts_ge_one(
                s[i]->Some_0.value.files_view(),
            ),
    ensures
        crate::data_models::spec_total_postings(s) <= slots_measure(s),
    decreases s.len(),
{
    if s.len() > 0 {
        assert(forall|i: int|
            0 <= i < s.drop_last().len() && #[trigger] s.drop_last()[i] is Some
                ==> bucket_counts_ge_one(s.drop_last()[i]->Some_0.value.files_view()));
        lemma_postings_le_measure_h(s.drop_last());
        match s.last() {
            Some(e) => {
                assert(s[s.len() - 1] is Some);
                lemma_len_le_total_freq(e.value.files_view());
            },
            None => {},
        }
    }
}

/// A posting list with positive counts weighs at least its length.
proof fn lemma_len_le_total_freq(files: Seq<DocFrequency>)
    requires
        bucket_counts_ge_one(files),
    ensures
        files.len() <= spec_total_freq(files),
    decreases files.len(),
{
    if files.len() > 0 {
        assert(forall|j: int|
            0 <= j < files.drop_last().len() ==> (#[trigger] files.drop_last()[j]) == files[j]);
        lemma_len_le_total_freq(files.drop_last());
    }
}

proof fn lemma_nonrare_empty(s: Seq<Option<TableEntry<GlobHTBucket>>>, i: int)
    requires
        0 <= i,
        forall|q: int| 0 <= q < s.len() ==> !(#[trigger] s[q] is Some),
    ensures
        crate::write_query_files::spec_nonrare_postings(s, i) == 0,
    decreases s.len() - i,
{
    if i < s.len() {
        lemma_nonrare_empty(s, i + 1);
    }
}

} // verus!
