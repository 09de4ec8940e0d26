use tfidf_search::indexer::index_corpus;
use tfidf_search::read_query_files::{get_one_dict_record, make_query, parse_sizes, IndexFiles};
use tfidf_search::data_models::FileSizes;
use tfidf_search::constants::TERM_LENGTH;

fn build(
    docs: Vec<(&str, &str)>,
    stopwords: &str,
    cap: usize,
) -> (FileSizes, Vec<u8>, Vec<u8>, Vec<u8>, Vec<u8>) {
    let owned: Vec<(String, Vec<u8>)> = docs
        .iter()
        .map(|(n, c)| (n.to_string(), c.as_bytes().to_vec()))
        .collect();
    index_corpus(&owned, &stopwords.as_bytes().to_vec(), cap)
}

fn index_of(r: &(FileSizes, Vec<u8>, Vec<u8>, Vec<u8>, Vec<u8>)) -> IndexFiles {
    IndexFiles {
        dict: r.2.clone(),
        post: r.3.clone(),
        map: r.4.clone(),
        sizes: r.1.clone(),
    }
}

#[test]
fn two_doc_corpus_ranks_by_relative_frequency() {
    let r = build(
        vec![("d1", "apple apple banana"), ("d2", "banana cherry")],
        "",
        11,
    );
    let idx = index_of(&r);
    let apple = make_query(&"apple".to_string(), &idx, 10).unwrap();
    assert_eq!(apple.len(), 1);
    assert_eq!(apple[0].name, "d1");
    // rtf 2/3, idf 1 + log10(2): floor of the product times the multiplier
    assert_eq!(apple[0].weight, 86735);
    let banana = make_query(&"banana".to_string(), &idx, 10).unwrap();
    assert_eq!(banana.len(), 2);
    // d2 has relative frequency 1/2, d1 has 1/3
    assert_eq!(banana[0].name, "d2");
    assert_eq!(banana[1].name, "d1");
    assert!(banana[0].weight > banana[1].weight);
    assert_eq!(banana[0].weight, 50000);
    assert_eq!(banana[1].weight, 33333);
}

#[test]
fn multi_term_query_sums_weights() {
    // every term occurs twice so none is tombstoned as rare
    let r = build(vec![("d1", "foo bar baz foo bar baz")], "", 11);
    let idx = index_of(&r);
    // a dotted word stays one token, which the index does not hold
    let res = make_query(&"FOO.Bar!".to_string(), &idx, 10).unwrap();
    assert_eq!(res.len(), 0);
    // split into two terms, both are found in the single document and
    // their weights add up
    let res2 = make_query(&"FOO Bar!".to_string(), &idx, 10).unwrap();
    assert_eq!(res2.len(), 1);
    assert_eq!(res2[0].name, "d1");
    let foo_alone = make_query(&"foo".to_string(), &idx, 10).unwrap();
    let bar_alone = make_query(&"bar".to_string(), &idx, 10).unwrap();
    assert_eq!(res2[0].weight, foo_alone[0].weight + bar_alone[0].weight);
}

#[test]
fn stopwords_are_tombstoned_and_posts_empty() {
    let r = build(vec![("d1", "the quick brown fox")], "the", 11);
    // each retained term appears once in one document: rare, tombstoned
    assert_eq!(r.3.len(), 0, "post file must be empty");
    let dict_str = String::from_utf8_lossy(&r.2).into_owned();
    assert_eq!(dict_str.matches("!DELETED").count(), 3);
    assert!(!dict_str.contains("the "));
    let idx = index_of(&r);
    // a tombstoned term probes as missing
    let res = make_query(&"quick".to_string(), &idx, 10).unwrap();
    assert_eq!(res.len(), 0);
}

#[test]
fn hundred_docs_same_term_gives_unit_idf() {
    let mut docs: Vec<(String, Vec<u8>)> = vec![];
    let mut names: Vec<String> = vec![];
    for i in 0..100 {
        names.push(format!("doc{}", i));
    }
    for i in 0..100 {
        docs.push((names[i].clone(), b"foo".to_vec()));
    }
    let r = index_corpus(&docs, &Vec::new(), 101);
    let idx = index_of(&r);
    let res = make_query(&"foo".to_string(), &idx, 5).unwrap();
    assert_eq!(res.len(), 5);
    // idf is exactly one, the relative frequency is one: full multiplier
    for row in &res {
        assert_eq!(row.weight, 100000);
    }
    for w in res.windows(2) {
        assert!(w[0].weight >= w[1].weight);
    }
}

#[test]
fn empty_corpus_yields_sentinel_dictionary() {
    let r = build(vec![], "", 5);
    assert_eq!(r.3.len(), 0);
    assert_eq!(r.4.len(), 0);
    let rec = TERM_LENGTH + r.0.num_docs_length + r.0.post_line_start_length + 3;
    assert_eq!(r.2.len(), 5 * rec);
    for line in r.2.chunks(rec) {
        assert!(line.starts_with(b"!NULL"));
    }
}

#[test]
fn rare_term_is_tombstoned() {
    let r = build(vec![("d1", "solo")], "", 5);
    let dict_str = String::from_utf8_lossy(&r.2).into_owned();
    assert_eq!(dict_str.matches("!DELETED").count(), 1);
    assert_eq!(r.3.len(), 0);
}

#[test]
fn single_threaded_build_is_reproducible() {
    let docs = vec![("a", "x y z x"), ("b", "y z w"), ("c", "w w q")];
    let r1 = build(docs.clone(), "z", 11);
    let r2 = build(docs, "z", 11);
    assert_eq!(r1.1, r2.1);
    assert_eq!(r1.2, r2.2);
    assert_eq!(r1.3, r2.3);
    assert_eq!(r1.4, r2.4);
}

#[test]
fn repeated_lookup_is_deterministic() {
    let r = build(vec![("d1", "apple apple banana"), ("d2", "banana cherry")], "", 11);
    let idx = index_of(&r);
    let a = make_query(&"banana cherry".to_string(), &idx, 10).unwrap();
    let b = make_query(&"banana cherry".to_string(), &idx, 10).unwrap();
    assert_eq!(a.len(), b.len());
    for (x, y) in a.iter().zip(b.iter()) {
        assert_eq!(x.name, y.name);
        assert_eq!(x.weight, y.weight);
    }
}

#[test]
fn empty_and_stopword_queries_return_nothing() {
    let r = build(vec![("d1", "apple banana apple")], "the", 11);
    let idx = index_of(&r);
    assert_eq!(make_query(&"".to_string(), &idx, 10).unwrap().len(), 0);
    assert_eq!(make_query(&"the".to_string(), &idx, 10).unwrap().len(), 0);
    assert_eq!(make_query(&"missing words".to_string(), &idx, 10).unwrap().len(), 0);
}

#[test]
fn num_results_larger_than_candidates_returns_all_sorted() {
    let r = build(
        vec![("d1", "apple apple banana"), ("d2", "banana cherry banana")],
        "",
        11,
    );
    let idx = index_of(&r);
    let res = make_query(&"banana".to_string(), &idx, 50).unwrap();
    assert_eq!(res.len(), 2);
    assert!(res[0].weight >= res[1].weight);
}

#[test]
fn every_record_has_the_derived_byte_length() {
    let r = build(
        vec![("first", "apple apple banana"), ("second", "banana cherry banana")],
        "",
        11,
    );
    let sizes = parse_sizes(&r.1).expect("sizes must parse back");
    let dict_rec = TERM_LENGTH + sizes.num_docs_length + sizes.post_line_start_length + 3;
    let post_rec = sizes.doc_id_length + sizes.weight_length + 2;
    let map_rec = sizes.map_name_length + 1;
    assert_eq!(r.2.len() % dict_rec, 0);
    assert_eq!(r.3.len() % post_rec, 0);
    assert_eq!(r.4.len() % map_rec, 0);
    for chunk in r.2.chunks(dict_rec) {
        assert_eq!(chunk.len(), dict_rec);
        assert_eq!(*chunk.last().unwrap(), b'\n');
    }
    for chunk in r.3.chunks(post_rec) {
        assert_eq!(chunk.len(), post_rec);
        assert_eq!(*chunk.last().unwrap(), b'\n');
    }
    for chunk in r.4.chunks(map_rec) {
        assert_eq!(chunk.len(), map_rec);
        assert_eq!(*chunk.last().unwrap(), b'\n');
    }
}

#[test]
fn dict_num_docs_sum_matches_post_line_count() {
    let r = build(
        vec![("d1", "apple apple banana"), ("d2", "banana cherry banana")],
        "",
        11,
    );
    let sizes = parse_sizes(&r.1).unwrap();
    let dict_rec = TERM_LENGTH + sizes.num_docs_length + sizes.post_line_start_length + 3;
    let post_rec = sizes.doc_id_length + sizes.weight_length + 2;
    let mut sum = 0usize;
    for chunk in r.2.chunks(dict_rec) {
        let text = String::from_utf8_lossy(&chunk[..chunk.len() - 1]).into_owned();
        let fields: Vec<&str> = text.split_whitespace().collect();
        sum += fields[1].parse::<usize>().unwrap();
    }
    assert_eq!(sum, r.3.len() / post_rec);
}

#[test]
fn map_lines_hold_names_in_doc_id_order() {
    // the second name carries an interior space, which trimming keeps
    let r = build(vec![("alpha", "x y"), ("beta two", "y z")], "", 11);
    let sizes = parse_sizes(&r.1).unwrap();
    let map_rec = sizes.map_name_length + 1;
    let names: Vec<String> = r
        .4
        .chunks(map_rec)
        .map(|c| String::from_utf8_lossy(c).trim().to_string())
        .collect();
    assert_eq!(names, vec!["alpha", "beta two"]);
}

#[test]
fn probe_start_locates_first_posting() {
    let r = build(
        vec![("d1", "apple apple banana"), ("d2", "banana cherry banana")],
        "",
        11,
    );
    let sizes = parse_sizes(&r.1).unwrap();
    let rec = get_one_dict_record(&r.2, &"banana".to_string(), &sizes)
        .unwrap()
        .expect("banana must be found");
    assert_eq!(rec.term, "banana");
    assert_eq!(rec.num_docs, 2);
    let post_rec = sizes.doc_id_length + sizes.weight_length + 2;
    let off = rec.post_line_start * post_rec;
    let line = &r.3[off..off + post_rec];
    let text = String::from_utf8_lossy(&line[..line.len() - 1]).into_owned();
    let fields: Vec<&str> = text.split_whitespace().collect();
    // the first posting of banana is document 0
    assert_eq!(fields[0], "0");
}

#[test]
fn sizes_file_round_trips() {
    let r = build(vec![("d1", "apple banana")], "", 11);
    let sizes = parse_sizes(&r.1).expect("written sizes must parse");
    assert_eq!(sizes.num_dict_lines, 11);
    assert_eq!(sizes.doc_id_length, 1);
    assert!(r.1.starts_with(b"{\"num_dict_lines\":"));
    assert_eq!(*r.1.last().unwrap(), b'\n');
}
