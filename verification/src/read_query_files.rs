//! The query evaluator: parses the sizes metadata, probes the on-disk
//! dictionary by hash with stride-3 steps, reads postings by offset,
//! accumulates per-document weights, and ranks the results.

use vstd::prelude::*;
use vstd::utf8::encode_utf8;
use crate::constants::TERM_LENGTH;
use crate::decimal::{spec_decimal, spec_dec_value, spec_trim, all_digits, is_digit,
    parse_dec_value, trim_range, spec_pad, decimal_bytes};
use crate::data_models::{DictRecord, PostRecord, NamedResult, FileSizes};
use crate::hashtable::{HashTable, TableEntry, hash_function, rehash, spec_hash, slots_measure,
    lemma_contents_measure_le, lemma_slots_measure_nonneg};
use crate::parser::{parse, spec_parse, bytes_at, bytes_to_chars};
use crate::weight::spec_weight;
use crate::write_query_files::{sizes_lit0, sizes_lit1, sizes_lit2, sizes_lit3, sizes_lit4,
    sizes_lit5, sizes_lit6, null_term};

verus! {

/// A failure of the query path: a malformed sizes file or index record.
#[derive(Debug, Clone, Copy, PartialEq, Eq)]
pub enum QueryError {
    Parse,
}

/// The three index files and the sizes sidecar, read fully into memory; the
/// evaluator seeks inside these buffers by record arithmetic.
pub struct IndexFiles {
    pub dict: Vec<u8>,
    pub post: Vec<u8>,
    pub map: Vec<u8>,
    pub sizes: Vec<u8>,
}

// ----- the sizes sidecar -----
/// The run of decimal digits at `i`.
pub open spec fn digit_run(b: Seq<u8>, i: int) -> int {
    crate::parser::run_len(b, i, digit_pred())
}

pub open spec fn digit_pred() -> spec_fn(u8) -> bool {
    |x: u8| is_digit(x)
}

/// One numeric field of the sizes object at position `p`: its digits and
/// value, when well-formed.
pub open spec fn spec_sizes_field(b: Seq<u8>, p: int) -> Option<(int, usize)> {
    let d = digit_run(b, p);
    if d >= 1 && spec_dec_value(b.subrange(p, p + d)) <= usize::MAX {
        Some((d, spec_dec_value(b.subrange(p, p + d)) as usize))
    } else {
        None
    }
}

/// A literal followed by a numeric field: the position after both, and the
/// field's value.
pub open spec fn after_lit_field(b: Seq<u8>, p: int, lit: Seq<u8>) -> Option<(int, usize)> {
    if bytes_at(b, p, lit) {
        let f = spec_sizes_field(b, p + lit.len());
        if f is Some {
            Some((p + lit.len() + f->Some_0.0, f->Some_0.1))
        } else {
            None
        }
    } else {
        None
    }
}

/// Parses the sizes metadata. The accepted form is exactly the canonical
/// JSON object the index writer emits — the six fields in write order, no
/// interior whitespace — plus optional trailing whitespace; an equivalent
/// JSON object in another field order or spacing is rejected as malformed.
pub open spec fn spec_parse_sizes(b: Seq<u8>) -> Option<FileSizes> {
    let r1 = after_lit_field(b, 0, sizes_lit0());
    let r2 = if r1 is Some {
        after_lit_field(b, r1->Some_0.0, sizes_lit1())
    } else {
        None
    };
    let r3 = if r2 is Some {
        after_lit_field(b, r2->Some_0.0, sizes_lit2())
    } else {
        None
    };
    let r4 = if r3 is Some {
        after_lit_field(b, r3->Some_0.0, sizes_lit3())
    } else {
        None
    };
    let r5 = if r4 is Some {
        after_lit_field(b, r4->Some_0.0, sizes_lit4())
    } else {
        None
    };
    let r6 = if r5 is Some {
        after_lit_field(b, r5->Some_0.0, sizes_lit5())
    } else {
        None
    };
    if r6 is Some && bytes_at(b, r6->Some_0.0, sizes_lit6()) && spec_trim(
        b.subrange(r6->Some_0.0 + sizes_lit6().len(), b.len() as int),
    ).len() == 0 {
        let fs = (FileSizes {
            num_dict_lines: r1->Some_0.1,
            post_line_start_length: r2->Some_0.1,
            num_docs_length: r3->Some_0.1,
            doc_id_length: r4->Some_0.1,
            weight_length: r5->Some_0.1,
            map_name_length: r6->Some_0.1,
        });
        Some(fs)
    } else {
        None
    }
}

/// Whether `b` holds `lit` at `pos`.
fn match_lit(b: &Vec<u8>, pos: usize, lit: &Vec<u8>) -> (r: bool)
    requires
        pos <= b@.len(),
    ensures
        r == bytes_at(b@, pos as int, lit@),
{
    let n = b.len();
    let m = lit.len();
    if m > n - pos {
        proof {
            assert(!bytes_at(b@, pos as int, lit@));
        }
        return false;
    }
    let mut j: usize = 0;
    while j < m
        invariant
            j <= m,
            m == lit@.len(),
            pos + m <= b@.len(),
            n == b@.len(),
            forall|q: int| 0 <= q < j ==> b@[pos + q] == lit@[q],
        decreases m - j,
    {
        if b[pos + j] != lit[j] {
            proof {
                assert(b@.subrange(pos as int, pos + m)[j as int] == b@[pos + j]);
                assert(!(b@.subrange(pos as int, pos + m) =~= lit@));
                if bytes_at(b@, pos as int, lit@) {
                    assert(b@.subrange(pos as int, pos + m) =~= lit@);
                }
            }
            return false;
        }
        j = j + 1;
    }
    proof {
        assert(b@.subrange(pos as int, pos + m) =~= lit@);
    }
    true
}

/// The length of the digit run at `pos`.
fn digit_run_x(b: &Vec<u8>, pos: usize) -> (r: usize)
    requires
        pos <= b@.len(),
    ensures
        r as int == digit_run(b@, pos as int),
        pos + r <= b@.len(),
{
    let n = b.len();
    let mut j = pos;
    while j < n && 48 <= b[j] && b[j] <= 57
        invariant
            pos <= j <= n,
            n == b@.len(),
            crate::parser::run_len(b@, pos as int, digit_pred()) == (j - pos)
                + crate::parser::run_len(b@, j as int, digit_pred()),
        decreases n - j,
    {
        proof {
            assert(crate::parser::run_len(b@, j as int, digit_pred()) == 1
                + crate::parser::run_len(b@, j + 1, digit_pred()));
        }
        j = j + 1;
    }
    proof {
        assert(crate::parser::run_len(b@, j as int, digit_pred()) == 0);
    }
    j - pos
}

/// One numeric field at `pos`; mirrors `spec_sizes_field`.
fn sizes_field_x(b: &Vec<u8>, pos: usize) -> (r: Option<(usize, usize)>)
    requires
        pos <= b@.len(),
    ensures
        match r {
            Some((d, v)) => spec_sizes_field(b@, pos as int) == Some((d as int, v)) && pos + d
                <= b@.len(),
            None => spec_sizes_field(b@, pos as int) is None,
        },
{
    let n = b.len();
    let d = digit_run_x(b, pos);
    if d < 1 {
        return None;
    }
    proof {
        crate::parser::lemma_run_len_bounds(b@, pos as int, digit_pred());
        assert(all_digits(b@.subrange(pos as int, pos + d)));
        assert(pos + d <= n);
    }
    match parse_dec_value(b, pos, pos + d) {
        Some(v) => Some((d, v)),
        None => None,
    }
}

/// One literal-plus-field step; mirrors `after_lit_field`.
fn lit_field_x(b: &Vec<u8>, p: usize, lit: &Vec<u8>) -> (r: Option<(usize, usize)>)
    requires
        p <= b@.len(),
    ensures
        match r {
            Some((q, v)) => after_lit_field(b@, p as int, lit@) == Some((q as int, v)) && q
                <= b@.len(),
            None => after_lit_field(b@, p as int, lit@) is None,
        },
{
    let n = b.len();
    if !match_lit(b, p, lit) {
        return None;
    }
    proof {
        assert(p + lit@.len() <= n);
    }
    let q0 = p + lit.len();
    match sizes_field_x(b, q0) {
        Some((d, v)) => {
            proof {
                assert(q0 + d <= n);
            }
            Some((q0 + d, v))
        },
        None => None,
    }
}

/// Parses the sizes metadata bytes: accepts the writer's canonical byte
/// form only (fixed field order, no interior whitespace), with optional
/// trailing whitespace.
pub fn parse_sizes(b: &Vec<u8>) -> (r: Option<FileSizes>)
    ensures
        r == spec_parse_sizes(b@),
{
    let lit0 = crate::write_query_files::sizes_lit0_vec();
    let lit1 = crate::write_query_files::sizes_lit1_vec();
    let lit2 = crate::write_query_files::sizes_lit2_vec();
    let lit3 = crate::write_query_files::sizes_lit3_vec();
    let lit4 = crate::write_query_files::sizes_lit4_vec();
    let lit5 = crate::write_query_files::sizes_lit5_vec();
    let lit6 = crate::write_query_files::sizes_lit6_vec();
    let r1 = match lit_field_x(b, 0, &lit0) {
        Some(x) => x,
        None => {
            return None;
        },
    };
    let r2 = match lit_field_x(b, r1.0, &lit1) {
        Some(x) => x,
        None => {
            return None;
        },
    };
    let r3 = match lit_field_x(b, r2.0, &lit2) {
        Some(x) => x,
        None => {
            return None;
        },
    };
    let r4 = match lit_field_x(b, r3.0, &lit3) {
        Some(x) => x,
        None => {
            return None;
        },
    };
    let r5 = match lit_field_x(b, r4.0, &lit4) {
        Some(x) => x,
        None => {
            return None;
        },
    };
    let r6 = match lit_field_x(b, r5.0, &lit5) {
        Some(x) => x,
        None => {
            return None;
        },
    };
    let nb = b.len();
    if !match_lit(b, r6.0, &lit6) {
        return None;
    }
    proof {
        assert(r6.0 + lit6@.len() <= nb);
    }
    let p7 = r6.0 + lit6.len();
    let (lo, hi) = trim_range(b, p7, b.len());
    if lo != hi {
        proof {
            assert(spec_trim(b@.subrange(p7 as int, b@.len() as int)).len() != 0);
        }
        return None;
    }
    proof {
        assert(spec_trim(b@.subrange(p7 as int, b@.len() as int)).len() == 0);
    }
    Some(
        FileSizes {
            num_dict_lines: r1.1,
            post_line_start_length: r2.1,
            num_docs_length: r3.1,
            doc_id_length: r4.1,
            weight_length: r5.1,
            map_name_length: r6.1,
        },
    )
}

// ----- dictionary probing -----
/// The outcome of a dictionary probe.
pub enum ProbeOutcome {
    /// The term's record: document count and first posting line.
    Found(usize, usize),
    /// The probe met `!NULL`, or ran a full cycle, or the term is sentinel-shaped.
    Missing,
    /// A record could not be parsed, or the record lies beyond the file.
    Malformed,
}

/// Whether the sizes metadata yields usable record arithmetic.
pub open spec fn sizes_ok(sizes: FileSizes) -> bool {
    &&& sizes.num_dict_lines >= 1
    &&& TERM_LENGTH + sizes.num_docs_length + sizes.post_line_start_length + 3 <= usize::MAX
    &&& sizes.doc_id_length + sizes.weight_length + 2 <= usize::MAX
    &&& sizes.map_name_length + 1 <= usize::MAX
    &&& sizes.num_dict_lines <= usize::MAX - 3
}

pub open spec fn spec_dict_rec_size(sizes: FileSizes) -> int {
    TERM_LENGTH + sizes.num_docs_length + sizes.post_line_start_length + 3
}

/// One numeric column of a record: trimmed, it must be a non-empty digit
/// run whose value fits.
pub open spec fn spec_num_field(b: Seq<u8>, from: int, to: int) -> Option<usize> {
    let f = spec_trim(b.subrange(from, to));
    if f.len() >= 1 && all_digits(f) && spec_dec_value(f) <= usize::MAX {
        Some(spec_dec_value(f) as usize)
    } else {
        None
    }
}

/// The parsed dictionary record in slot `h`: term bytes, document count and
/// posting start line.
pub open spec fn spec_dict_slot(b: Seq<u8>, sizes: FileSizes, h: int) -> Option<
    (Seq<u8>, usize, usize),
> {
    let rs = spec_dict_rec_size(sizes);
    let off = h * rs;
    if off < 0 || off + rs > b.len() {
        None
    } else {
        let term = spec_trim(b.subrange(off, off + TERM_LENGTH));
        let nd = spec_num_field(b, off + TERM_LENGTH + 1, off + TERM_LENGTH + 1
            + sizes.num_docs_length);
        let st = spec_num_field(
            b,
            off + TERM_LENGTH + 2 + sizes.num_docs_length,
            off + TERM_LENGTH + 2 + sizes.num_docs_length + sizes.post_line_start_length,
        );
        match (nd, st) {
            (Some(nd), Some(st)) => Some((term, nd, st)),
            _ => None,
        }
    }
}

/// The probe for `token` from slot `h` with `steps` probes left: stops at
/// the token's record or at `!NULL`; sentinel-shaped hits and exhausted
/// cycles are misses; unparsable records are malformed.
pub open spec fn spec_probe_from(
    b: Seq<u8>,
    sizes: FileSizes,
    token: Seq<u8>,
    h: int,
    steps: int,
) -> ProbeOutcome
    decreases steps,
{
    if steps <= 0 {
        ProbeOutcome::Missing
    } else {
        match spec_dict_slot(b, sizes, h) {
            None => ProbeOutcome::Malformed,
            Some((term, nd, st)) => {
                if term =~= null_term() {
                    ProbeOutcome::Missing
                } else if term =~= token {
                    if term.len() > 0 && term[0] == 33 {
                        ProbeOutcome::Missing
                    } else {
                        ProbeOutcome::Found(nd, st)
                    }
                } else {
                    spec_probe_from(
                        b,
                        sizes,
                        token,
                        (h + 3) % (sizes.num_dict_lines as int),
                        steps - 1,
                    )
                }
            },
        }
    }
}

/// The dictionary probe for `token`: from its hash slot, stride 3, at most
/// one full cycle of the table.
pub open spec fn spec_probe(b: Seq<u8>, sizes: FileSizes, token: Seq<char>) -> ProbeOutcome {
    spec_probe_from(
        b,
        sizes,
        encode_utf8(token),
        spec_hash(token, sizes.num_dict_lines as int),
        sizes.num_dict_lines as int,
    )
}

/// Reads the trimmed term and the two numeric fields of the record in slot
/// `h`; mirrors `spec_dict_slot`.
fn read_dict_slot(dict: &Vec<u8>, sizes: &FileSizes, h: usize) -> (r: Option<
    (Vec<u8>, usize, usize),
>)
    requires
        sizes_ok(*sizes),
        h < sizes.num_dict_lines,
    ensures
        match r {
            Some((term, nd, st)) => spec_dict_slot(dict@, *sizes, h as int) == Some(
                (term@, nd, st),
            ),
            None => spec_dict_slot(dict@, *sizes, h as int) is None,
        },
{
    let rs = sizes.get_dict_record_size();
    let n = dict.len();
    if rs > n || h > (n - rs) / rs {
        proof {
            assert(h as int * rs as int + rs > n) by {
                if h as int * rs + rs <= n {
                    assert(h as int * rs <= n - rs);
                    vstd::arithmetic::div_mod::lemma_div_is_ordered(
                        h as int * rs,
                        (n - rs) as int,
                        rs as int,
                    );
                    vstd::arithmetic::div_mod::lemma_div_by_multiple(h as int, rs as int);
                }
            }
        }
        return None;
    }
    proof {
        assert(h * rs + rs <= n) by {
            assert(h as int <= (n - rs) as int / (rs as int));
            vstd::arithmetic::mul::lemma_mul_inequality(
                h as int,
                (n - rs) as int / (rs as int),
                rs as int,
            );
            vstd::arithmetic::div_mod::lemma_fundamental_div_mod((n - rs) as int, rs as int);
            vstd::arithmetic::div_mod::lemma_mod_bound((n - rs) as int, rs as int);
            vstd::arithmetic::mul::lemma_mul_is_commutative((n - rs) as int / (rs as int), rs as int);
        }
    }
    let off = h * rs;
    let (tlo, thi) = trim_range(dict, off, off + TERM_LENGTH);
    let term = slice_vec_pub(dict, tlo, thi);
    let nd_from = off + TERM_LENGTH + 1;
    let nd_to = nd_from + sizes.num_docs_length;
    let (nlo, nhi) = trim_range(dict, nd_from, nd_to);
    let nd = parse_dec_value(dict, nlo, nhi);
    let st_from = nd_to + 1;
    let st_to = st_from + sizes.post_line_start_length;
    let (slo, shi) = trim_range(dict, st_from, st_to);
    let st = parse_dec_value(dict, slo, shi);
    match (nd, st) {
        (Some(nd), Some(st)) => Some((term, nd, st)),
        _ => None,
    }
}

/// Copies `s[from..to]` into a fresh vector.
pub fn slice_vec_pub(s: &Vec<u8>, from: usize, to: usize) -> (r: Vec<u8>)
    requires
        from <= to <= s@.len(),
    ensures
        r@ == s@.subrange(from as int, to as int),
{
    let mut r: Vec<u8> = Vec::new();
    let mut j = from;
    while j < to
        invariant
            from <= j <= to <= s@.len(),
            r@ =~= s@.subrange(from as int, j as int),
        decreases to - j,
    {
        proof {
            assert(s@.subrange(from as int, j + 1) =~= s@.subrange(from as int, j as int).push(
                s@[j as int],
            ));
        }
        r.push(s[j]);
        j = j + 1;
    }
    r
}

/// Compares two byte vectors.
fn bytes_eq(a: &Vec<u8>, b: &Vec<u8>) -> (r: bool)
    ensures
        r == (a@ =~= b@),
{
    let n = a.len();
    if n != b.len() {
        return false;
    }
    let mut j: usize = 0;
    while j < n
        invariant
            j <= n,
            n == a@.len(),
            n == b@.len(),
            forall|q: int| 0 <= q < j ==> a@[q] == b@[q],
        decreases n - j,
    {
        if a[j] != b[j] {
            return false;
        }
        j = j + 1;
    }
    true
}

/// Probes the dictionary for one token; `Ok(Some(..))` is the token's
/// record, `Ok(None)` a miss, and `Err` a malformed record.
pub fn get_one_dict_record(dict: &Vec<u8>, token: &String, sizes: &FileSizes) -> (r: Result<
    Option<DictRecord>,
    QueryError,
>)
    requires
        sizes_ok(*sizes),
    ensures
        match r {
            Ok(Some(rec)) => spec_probe(dict@, *sizes, token@) == ProbeOutcome::Found(
                rec.num_docs,
                rec.post_line_start,
            ) && rec.term@ == token@,
            Ok(None) => spec_probe(dict@, *sizes, token@) is Missing,
            Err(_) => spec_probe(dict@, *sizes, token@) is Malformed,
        },
{
    let n = sizes.num_dict_lines;
    let token_b = token.as_str().as_bytes_vec();
    let mut h = hash_function(token.as_str(), n);
    let mut steps = n;
    while steps > 0
        invariant
            sizes_ok(*sizes),
            h < n,
            n == sizes.num_dict_lines,
            steps <= n,
            token_b@ == encode_utf8(token@),
            spec_probe(dict@, *sizes, token@) == spec_probe_from(
                dict@,
                *sizes,
                token_b@,
                h as int,
                steps as int,
            ),
        decreases steps,
    {
        match read_dict_slot(dict, sizes, h) {
            None => {
                return Err(QueryError::Parse);
            },
            Some((term, nd, st)) => {
                let mut null_v: Vec<u8> = Vec::new();
                null_v.push(33);
                null_v.push(78);
                null_v.push(85);
                null_v.push(76);
                null_v.push(76);
                proof {
                    assert(null_v@ =~= null_term());
                }
                if bytes_eq(&term, &null_v) {
                    return Ok(None);
                }
                if bytes_eq(&term, &token_b) {
                    if term.len() > 0 && term[0] == 33 {
                        return Ok(None);
                    }
                    // the stored term equals the probed token byte for byte
                    let term_s = token.clone();
                    return Ok(
                        Some(DictRecord { term: term_s, num_docs: nd, post_line_start: st }),
                    );
                }
            },
        }
        h = rehash(h, n);
        steps = steps - 1;
    }
    Ok(None)
}

// ----- postings -----
pub open spec fn spec_post_rec_size(sizes: FileSizes) -> int {
    sizes.doc_id_length + sizes.weight_length + 2
}

/// The posting record on line `line`: document id and weight.
pub open spec fn spec_post_slot(b: Seq<u8>, sizes: FileSizes, line: int) -> Option<
    (usize, usize),
> {
    let rs = spec_post_rec_size(sizes);
    let off = line * rs;
    if off < 0 || off + rs > b.len() {
        None
    } else {
        let id = spec_num_field(b, off, off + sizes.doc_id_length);
        let w = spec_num_field(
            b,
            off + sizes.doc_id_length + 1,
            off + sizes.doc_id_length + 1 + sizes.weight_length,
        );
        match (id, w) {
            (Some(id), Some(w)) => Some((id, w)),
            _ => None,
        }
    }
}

/// `cnt` consecutive posting records from line `start`.
pub open spec fn spec_term_posts(b: Seq<u8>, sizes: FileSizes, start: int, cnt: nat) -> Option<
    Seq<(usize, usize)>,
>
    decreases cnt,
{
    if cnt == 0 {
        Some(Seq::empty())
    } else {
        match spec_post_slot(b, sizes, start) {
            None => None,
            Some(p) => match spec_term_posts(b, sizes, start + 1, (cnt - 1) as nat) {
                None => None,
                Some(rest) => Some(seq![p] + rest),
            },
        }
    }
}

/// Reads one posting record; mirrors `spec_post_slot`.
fn read_post_slot(post: &Vec<u8>, sizes: &FileSizes, line: usize) -> (r: Option<(usize, usize)>)
    requires
        sizes_ok(*sizes),
    ensures
        match r {
            Some(p) => spec_post_slot(post@, *sizes, line as int) == Some(p),
            None => spec_post_slot(post@, *sizes, line as int) is None,
        },
{
    let rs = sizes.get_post_record_size();
    let n = post.len();
    if rs > n || line > (n - rs) / rs {
        proof {
            assert(line as int * rs as int + rs > n) by {
                if line as int * rs + rs <= n {
                    assert(line as int * rs <= n - rs);
                    vstd::arithmetic::div_mod::lemma_div_is_ordered(
                        line as int * rs,
                        (n - rs) as int,
                        rs as int,
                    );
                    vstd::arithmetic::div_mod::lemma_div_by_multiple(line as int, rs as int);
                }
            }
        }
        return None;
    }
    proof {
        assert(line * rs + rs <= n) by {
            assert(line as int <= (n - rs) as int / (rs as int));
            vstd::arithmetic::mul::lemma_mul_inequality(
                line as int,
                (n - rs) as int / (rs as int),
                rs as int,
            );
            vstd::arithmetic::div_mod::lemma_fundamental_div_mod((n - rs) as int, rs as int);
            vstd::arithmetic::div_mod::lemma_mod_bound((n - rs) as int, rs as int);
            vstd::arithmetic::mul::lemma_mul_is_commutative(
                (n - rs) as int / (rs as int),
                rs as int,
            );
        }
    }
    let off = line * rs;
    let (ilo, ihi) = trim_range(post, off, off + sizes.doc_id_length);
    let id = parse_dec_value(post, ilo, ihi);
    let w_from = off + sizes.doc_id_length + 1;
    let (wlo, whi) = trim_range(post, w_from, w_from + sizes.weight_length);
    let w = parse_dec_value(post, wlo, whi);
    match (id, w) {
        (Some(id), Some(w)) => Some((id, w)),
        _ => None,
    }
}

/// The view of a posting list as id/weight pairs.
pub open spec fn posts_view(v: Seq<PostRecord>) -> Seq<(usize, usize)> {
    v.map_values(|p: PostRecord| (p.doc_id, p.weight))
}

/// Reads one term's consecutive postings.
pub fn get_term_post_records(post: &Vec<u8>, dict_record: &DictRecord, sizes: &FileSizes) -> (r:
    Result<Vec<PostRecord>, QueryError>)
    requires
        sizes_ok(*sizes),
    ensures
        match r {
            Ok(v) => spec_term_posts(
                post@,
                *sizes,
                dict_record.post_line_start as int,
                dict_record.num_docs as nat,
            ) == Some(posts_view(v@)),
            Err(_) => spec_term_posts(
                post@,
                *sizes,
                dict_record.post_line_start as int,
                dict_record.num_docs as nat,
            ) is None,
        },
{
    let mut v: Vec<PostRecord> = Vec::new();
    let post_len = post.len();
    let cnt = dict_record.num_docs;
    let start = dict_record.post_line_start;
    let ghost b = post@;
    let mut j: usize = 0;
    proof {
        assert(posts_view(v@) =~= Seq::<(usize, usize)>::empty());
        assert(forall|rest: Seq<(usize, usize)>|
            Seq::<(usize, usize)>::empty() + rest =~= rest);
    }
    while j < cnt
        invariant
            j <= cnt,
            b == post@,
            post_len == b.len(),
            sizes_ok(*sizes),
            start == dict_record.post_line_start,
            cnt == dict_record.num_docs,
            posts_view(v@).len() == j,
            spec_term_posts(b, *sizes, start as int, cnt as nat) == (match spec_term_posts(
                b,
                *sizes,
                start + j,
                (cnt - j) as nat,
            ) {
                Some(rest) => Some(posts_view(v@) + rest),
                None => None::<Seq<(usize, usize)>>,
            }),
        decreases cnt - j,
    {
        if start > usize::MAX - j {
            proof {
                lemma_post_slot_oob(b, *sizes, start as int + j as int);
            }
            return Err(QueryError::Parse);
        }
        match read_post_slot(post, sizes, start + j) {
            None => {
                return Err(QueryError::Parse);
            },
            Some((id, w)) => {
                let ghost oldv = v@;
                v.push(PostRecord { doc_id: id, weight: w });
                proof {
                    assert(posts_view(v@) =~= posts_view(oldv).push((id, w)));
                    assert forall|rest: Seq<(usize, usize)>|
                        posts_view(oldv) + (seq![(id, w)] + rest) =~= #[trigger] (posts_view(
                            v@,
                        ) + rest) by {}
                }
            },
        }
        j = j + 1;
    }
    proof {
        assert(spec_term_posts(b, *sizes, start + cnt, 0) == Some(
            Seq::<(usize, usize)>::empty(),
        ));
        assert(posts_view(v@) + Seq::<(usize, usize)>::empty() =~= posts_view(v@));
    }
    Ok(v)
}

/// A posting line beyond the addressable range never parses.
proof fn lemma_post_slot_oob(b: Seq<u8>, sizes: FileSizes, line: int)
    requires
        sizes_ok(sizes),
        line > usize::MAX,
        b.len() <= usize::MAX,
    ensures
        spec_post_slot(b, sizes, line) is None,
{
    let rs = spec_post_rec_size(sizes);
    assert(rs >= 2);
    assert(line * rs >= line * 2) by {
        vstd::arithmetic::mul::lemma_mul_inequality(2, rs, line);
        vstd::arithmetic::mul::lemma_mul_is_commutative(line, rs);
        vstd::arithmetic::mul::lemma_mul_is_commutative(line, 2);
    }
}

/// Tokenizes a query with the indexing tokenizer.
pub fn get_query_tokens(query: &String) -> (r: Vec<String>)
    ensures
        r@.len() == spec_parse(vstd::utf8::encode_utf8(query@)).len(),
        forall|k: int|
            0 <= k < r@.len() ==> (#[trigger] r@[k])@ == spec_parse(
                vstd::utf8::encode_utf8(query@),
            )[k],
{
    let bytes = query.as_str().as_bytes_vec();
    parse(&bytes)
}

/// The probed records of the tokens, misses dropped: `None` when some
/// record was malformed.
pub open spec fn spec_dict_records(
    dict: Seq<u8>,
    sizes: FileSizes,
    toks: Seq<Seq<char>>,
) -> Option<Seq<(Seq<char>, usize, usize)>>
    decreases toks.len(),
{
    if toks.len() == 0 {
        Some(Seq::empty())
    } else {
        match spec_dict_records(dict, sizes, toks.drop_last()) {
            None => None,
            Some(rest) => match spec_probe(dict, sizes, toks.last()) {
                ProbeOutcome::Malformed => None,
                ProbeOutcome::Missing => Some(rest),
                ProbeOutcome::Found(nd, st) => Some(rest.push((toks.last(), nd, st))),
            },
        }
    }
}

/// The view of probed dictionary records.
pub open spec fn dict_recs_view(v: Seq<DictRecord>) -> Seq<(Seq<char>, usize, usize)> {
    v.map_values(|d: DictRecord| (d.term@, d.num_docs, d.post_line_start))
}

/// Probes the dictionary for every token, dropping misses.
pub fn get_dict_records(dict: &Vec<u8>, tokens: &Vec<String>, sizes: &FileSizes) -> (r: Result<
    Vec<DictRecord>,
    QueryError,
>)
    requires
        sizes_ok(*sizes),
    ensures
        match r {
            Ok(v) => spec_dict_records(
                dict@,
                *sizes,
                tokens@.map_values(|t: String| t@),
            ) == Some(dict_recs_view(v@)),
            Err(_) => spec_dict_records(
                dict@,
                *sizes,
                tokens@.map_values(|t: String| t@),
            ) is None,
        },
{
    let ghost toks = tokens@.map_values(|t: String| t@);
    let mut v: Vec<DictRecord> = Vec::new();
    let n = tokens.len();
    let mut i: usize = 0;
    proof {
        assert(toks.take(0) =~= Seq::<Seq<char>>::empty());
        assert(dict_recs_view(v@) =~= Seq::<(Seq<char>, usize, usize)>::empty());
    }
    while i < n
        invariant
            i <= n,
            n == tokens@.len(),
            toks == tokens@.map_values(|t: String| t@),
            toks.len() == n,
            sizes_ok(*sizes),
            spec_dict_records(dict@, *sizes, toks.take(i as int)) == Some(dict_recs_view(v@)),
        decreases n - i,
    {
        proof {
            assert(toks.take(i + 1).drop_last() =~= toks.take(i as int));
            assert(toks.take(i + 1).last() == toks[i as int]);
            assert(toks[i as int] == tokens@[i as int]@);
        }
        match get_one_dict_record(dict, &tokens[i], sizes) {
            Err(e) => {
                proof {
                    lemma_dict_records_extend_none(dict@, *sizes, toks, i as int);
                }
                return Err(QueryError::Parse);
            },
            Ok(None) => {},
            Ok(Some(rec)) => {
                let ghost oldv = v@;
                v.push(rec);
                proof {
                    assert(dict_recs_view(v@) =~= dict_recs_view(oldv).push(
                        (rec.term@, rec.num_docs, rec.post_line_start),
                    ));
                }
            },
        }
        i = i + 1;
    }
    proof {
        assert(toks.take(n as int) =~= toks);
    }
    Ok(v)
}

/// A malformed probe poisons the whole record list.
proof fn lemma_dict_records_extend_none(
    dict: Seq<u8>,
    sizes: FileSizes,
    toks: Seq<Seq<char>>,
    i: int,
)
    requires
        0 <= i < toks.len(),
        spec_probe(dict, sizes, toks[i]) is Malformed,
    ensures
        spec_dict_records(dict, sizes, toks) is None,
    decreases toks.len(),
{
    if toks.len() > 0 {
        if i == toks.len() - 1 {
        } else {
            assert(toks.drop_last()[i] == toks[i]);
            lemma_dict_records_extend_none(dict, sizes, toks.drop_last(), i);
        }
    }
}

/// All postings of the found records, in record order; `None` when any
/// posting is malformed.
pub open spec fn spec_all_posts(
    post: Seq<u8>,
    sizes: FileSizes,
    recs: Seq<(Seq<char>, usize, usize)>,
) -> Option<Seq<(usize, usize)>>
    decreases recs.len(),
{
    if recs.len() == 0 {
        Some(Seq::empty())
    } else {
        match spec_all_posts(post, sizes, recs.drop_last()) {
            None => None,
            Some(rest) => match spec_term_posts(
                post,
                sizes,
                recs.last().2 as int,
                recs.last().1 as nat,
            ) {
                None => None,
                Some(ps) => Some(rest + ps),
            },
        }
    }
}

/// Reads the postings of every found record.
pub fn get_all_post_records(post: &Vec<u8>, dict_records: &Vec<DictRecord>, sizes: &FileSizes) -> (
    r: Result<Vec<PostRecord>, QueryError>)
    requires
        sizes_ok(*sizes),
    ensures
        match r {
            Ok(v) => spec_all_posts(post@, *sizes, dict_recs_view(dict_records@)) == Some(
                posts_view(v@),
            ),
            Err(_) => spec_all_posts(post@, *sizes, dict_recs_view(dict_records@)) is None,
        },
{
    let ghost recs = dict_recs_view(dict_records@);
    let mut v: Vec<PostRecord> = Vec::new();
    let n = dict_records.len();
    let mut i: usize = 0;
    proof {
        assert(recs.take(0) =~= Seq::<(Seq<char>, usize, usize)>::empty());
        assert(posts_view(v@) =~= Seq::<(usize, usize)>::empty());
    }
    while i < n
        invariant
            i <= n,
            n == dict_records@.len(),
            recs == dict_recs_view(dict_records@),
            recs.len() == n,
            sizes_ok(*sizes),
            spec_all_posts(post@, *sizes, recs.take(i as int)) == Some(posts_view(v@)),
        decreases n - i,
    {
        proof {
            assert(recs.take(i + 1).drop_last() =~= recs.take(i as int));
            assert(recs.take(i + 1).last() == recs[i as int]);
            assert(recs[i as int] == (dict_records@[i as int].term@, dict_records@[i as int].num_docs, dict_records@[i as int].post_line_start));
        }
        match get_term_post_records(post, &dict_records[i], sizes) {
            Err(e) => {
                proof {
                    lemma_all_posts_none(post@, *sizes, recs, i as int);
                }
                return Err(QueryError::Parse);
            },
            Ok(mut ps) => {
                let ghost oldv = v@;
                let ghost psv = ps@;
                v.append(&mut ps);
                proof {
                    assert(posts_view(v@) =~= posts_view(oldv) + posts_view(psv));
                }
            },
        }
        i = i + 1;
    }
    proof {
        assert(recs.take(n as int) =~= recs);
    }
    Ok(v)
}

proof fn lemma_all_posts_none(
    post: Seq<u8>,
    sizes: FileSizes,
    recs: Seq<(Seq<char>, usize, usize)>,
    i: int,
)
    requires
        0 <= i < recs.len(),
        spec_term_posts(post, sizes, recs[i].2 as int, recs[i].1 as nat) is None,
    ensures
        spec_all_posts(post, sizes, recs) is None,
    decreases recs.len(),
{
    if recs.len() > 0 {
        if i == recs.len() - 1 {
        } else {
            assert(recs.drop_last()[i] == recs[i]);
            lemma_all_posts_none(post, sizes, recs.drop_last(), i);
        }
    }
}

// ----- the query accumulator -----
/// The decimal digits of `n`, as characters.
pub open spec fn dec_chars(n: nat) -> Seq<char> {
    bytes_to_chars(spec_decimal(n))
}

/// The accumulated weight of document `id` over the records.
pub open spec fn sum_weights(recs: Seq<PostRecord>, id: usize) -> int
    decreases recs.len(),
{
    if recs.len() == 0 {
        0
    } else {
        sum_weights(recs.drop_last(), id) + if recs.last().doc_id == id {
            recs.last().weight as int
        } else {
            0int
        }
    }
}

/// A key of the accumulator table: the decimal digits of a document id
/// whose value fits.
pub open spec fn key_parses(k: Seq<char>) -> bool {
    let b = vstd::utf8::encode_utf8(k);
    b.len() >= 1 && all_digits(b) && spec_dec_value(b) <= usize::MAX
}

proof fn lemma_sum_weights_take_step(recs: Seq<PostRecord>, i: int, id: usize)
    requires
        0 <= i < recs.len(),
    ensures
        sum_weights(recs.take(i + 1), id) == sum_weights(recs.take(i), id) + if recs[i].doc_id
            == id {
            recs[i].weight as int
        } else {
            0int
        },
{
    assert(recs.take(i + 1).drop_last() =~= recs.take(i));
    assert(recs.take(i + 1).last() == recs[i]);
}

/// The decimal-character key of `n` parses back to `n`.
pub proof fn lemma_dec_chars_parses(n: nat)
    requires
        n <= usize::MAX,
    ensures
        key_parses(dec_chars(n)),
        spec_dec_value(vstd::utf8::encode_utf8(dec_chars(n))) == n,
        vstd::utf8::encode_utf8(dec_chars(n)) == spec_decimal(n),
{
    crate::decimal::lemma_decimal_digits(n);
    crate::decimal::lemma_decimal_value(n);
    let chars = dec_chars(n);
    assert(vstd::utf8::is_ascii_chars(chars)) by {
        assert forall|i: int| 0 <= i < chars.len() implies '\0' <= #[trigger] chars[i]
            <= '\u{7f}' by {
            assert(is_digit(spec_decimal(n)[i]));
            assert(chars[i] == spec_decimal(n)[i] as char);
        }
    }
    vstd::utf8::is_ascii_chars_encode_utf8(chars);
    assert(vstd::utf8::encode_utf8(chars) =~= spec_decimal(n));
}

/// Two ids with the same decimal key are equal.
pub proof fn lemma_dec_chars_injective(a: nat, b: nat)
    requires
        a <= usize::MAX,
        b <= usize::MAX,
        dec_chars(a) == dec_chars(b),
    ensures
        a == b,
{
    lemma_dec_chars_parses(a);
    lemma_dec_chars_parses(b);
}

/// Builds the per-query accumulator: one slot per document, weights summed
/// over the query's terms. Fails only when a bound of the machine is hit:
/// the capacity, the record count, or an accumulated weight would overflow.
pub fn make_query_ht(post_records: &Vec<PostRecord>, expected_docs: usize) -> (r: Result<
    HashTable<usize>,
    QueryError,
>)
    ensures
        match r {
            Ok(ht) => {
                &&& ht.wf()
                &&& 1 <= ht.capacity()
                &&& (forall|k: Seq<char>|
                    #[trigger] ht.contents().contains_key(k) ==> key_parses(k))
                &&& (forall|k: Seq<char>|
                    #[trigger] ht.contents().contains_key(k) <==> (exists|j: int|
                        0 <= j < post_records@.len() && dec_chars(
                            (#[trigger] post_records@[j]).doc_id as nat,
                        ) == k))
                &&& (forall|j: int|
                    0 <= j < post_records@.len() ==> ht.contents()[dec_chars(
                        (#[trigger] post_records@[j]).doc_id as nat,
                    )] as int == sum_weights(post_records@, post_records@[j].doc_id))
            },
            Err(_) => expected_docs > (usize::MAX - 3) / 8 || post_records@.len() > (usize::MAX
                - 3) / 8 || (exists|j: int|
                0 <= j < post_records@.len() && sum_weights(
                    post_records@.take(j + 1),
                    (#[trigger] post_records@[j]).doc_id,
                ) > usize::MAX),
        },
{
    if expected_docs > (usize::MAX - 3) / 8 {
        return Err(QueryError::Parse);
    }
    if post_records.len() > (usize::MAX - 3) / 8 {
        return Err(QueryError::Parse);
    }
    proof {
        assert(expected_docs * 3 + 1 <= (usize::MAX - 3) / 2) by {
            vstd::arithmetic::mul::lemma_mul_inequality(
                expected_docs as int,
                (usize::MAX - 3) / 8,
                3,
            );
            vstd::arithmetic::mul::lemma_mul_is_commutative((usize::MAX - 3) as int / 8, 3);
            vstd::arithmetic::div_mod::lemma_fundamental_div_mod((usize::MAX - 3) as int, 8);
            vstd::arithmetic::div_mod::lemma_mod_bound((usize::MAX - 3) as int, 8);
            vstd::arithmetic::div_mod::lemma_fundamental_div_mod((usize::MAX - 3) as int, 2);
            vstd::arithmetic::div_mod::lemma_mod_bound((usize::MAX - 3) as int, 2);
            assert((usize::MAX - 3) / 8 >= 1);
        }
    }
    let cap = expected_docs * 3 + 1;
    proof {
        assert((expected_docs * 3 + 1) % 3 != 0) by {
            vstd::arithmetic::div_mod::lemma_mod_multiples_vanish(expected_docs as int, 1, 3);
            vstd::arithmetic::div_mod::lemma_small_mod(1nat, 3nat);
            vstd::arithmetic::mul::lemma_mul_is_commutative(expected_docs as int, 3);
        }
    }
    let mut ht: HashTable<usize> = HashTable::new(cap);
    let recs = post_records;
    let n = recs.len();
    let mut i: usize = 0;
    proof {
        crate::hashtable::lemma_slots_measure_empty(ht.slots());
    }
    while i < n
        invariant
            i <= n,
            n == recs@.len(),
            n <= (usize::MAX - 3) / 8,
            recs@ == post_records@,
            ht.wf(),
            1 <= ht.capacity() <= (usize::MAX - 3) / 2,
            ht.num_elems() <= i,
            forall|k: Seq<char>| #[trigger] ht.contents().contains_key(k) ==> key_parses(k),
            forall|k: Seq<char>|
                #[trigger] ht.contents().contains_key(k) <==> (exists|j: int|
                    0 <= j < i && dec_chars((#[trigger] recs@[j]).doc_id as nat) == k),
            forall|j: int|
                0 <= j < i ==> ht.contents()[dec_chars(
                    (#[trigger] recs@[j]).doc_id as nat,
                )] as int == sum_weights(recs@.take(i as int), recs@[j].doc_id),
            forall|j: int|
                0 <= j < i ==> sum_weights(recs@.take(i as int), (#[trigger] recs@[j]).doc_id)
                    <= usize::MAX,
        decreases n - i,
    {
        let id = recs[i].doc_id;
        let w = recs[i].weight;
        let ghost gk = dec_chars(id as nat);
        proof {
            lemma_dec_chars_parses(id as nat);
        }
        let kb = decimal_bytes(id);
        proof {
            crate::decimal::lemma_decimal_digits(id as nat);
            assert(forall|q: int| 0 <= q < kb@.len() ==> kb@[q] < 128) by {
                assert(forall|q: int|
                    0 <= q < spec_decimal(id as nat).len() ==> is_digit(
                        #[trigger] spec_decimal(id as nat)[q],
                    ));
            }
        }
        let key = crate::parser::ascii_string(&kb);
        proof {
            assert(key@ == gk) by {
                assert(key@ =~= bytes_to_chars(spec_decimal(id as nat)));
            }
        }
        let cur: usize = match ht.get(&key) {
            Some(v) => *v,
            None => 0,
        };
        if w > usize::MAX - cur {
            proof {
                lemma_sum_weights_take_step(recs@, i as int, id);
                assert(sum_weights(recs@.take(i as int), id) >= cur) by {
                    if ht.contents().contains_key(gk) {
                        let j0 = choose|j: int|
                            0 <= j < i && dec_chars((#[trigger] recs@[j]).doc_id as nat) == gk;
                        lemma_dec_chars_injective(recs@[j0].doc_id as nat, id as nat);
                    } else {
                        lemma_sum_weights_absent(recs@, i as int, id);
                    }
                }
                assert(sum_weights(recs@.take(i + 1), id) > usize::MAX);
            }
            return Err(QueryError::Parse);
        }
        let ghost pre = ht;
        proof {
            crate::hashtable::lemma_spec_reindexed_len(ht);
            if ht.contents().contains_key(gk) {
                let j0 = choose|j: int|
                    0 <= j < i && dec_chars((#[trigger] recs@[j]).doc_id as nat) == gk;
                lemma_dec_chars_injective(recs@[j0].doc_id as nat, id as nat);
                assert(ht.contents()[gk] == cur);
            }
        }
        ht.insert_combine(&key, w);
        i = i + 1;
        proof {
            assert forall|k: Seq<char>|
                #[trigger] ht.contents().contains_key(k) <==> (exists|j: int|
                    0 <= j < i && dec_chars((#[trigger] recs@[j]).doc_id as nat) == k) by {
                if k != gk {
                    assert(pre.contents().remove(gk).contains_key(k) == pre.contents(
                    ).contains_key(k));
                    assert(ht.contents().remove(gk).contains_key(k) == ht.contents(
                    ).contains_key(k));
                    if ht.contents().contains_key(k) {
                        let j0 = choose|j: int|
                            0 <= j < i - 1 && dec_chars((#[trigger] recs@[j]).doc_id as nat)
                                == k;
                        assert(0 <= j0 < i && dec_chars(recs@[j0].doc_id as nat) == k);
                    }
                } else {
                    assert(dec_chars(recs@[i - 1].doc_id as nat) == k);
                }
            }
            assert forall|j: int| 0 <= j < i implies ht.contents()[dec_chars(
                (#[trigger] recs@[j]).doc_id as nat,
            )] as int == sum_weights(recs@.take(i as int), recs@[j].doc_id) && sum_weights(
                recs@.take(i as int),
                recs@[j].doc_id,
            ) <= usize::MAX by {
                let jid = recs@[j].doc_id;
                let jk = dec_chars(jid as nat);
                lemma_sum_weights_take_step(recs@, i - 1, jid);
                if jk == gk {
                    lemma_dec_chars_injective(jid as nat, id as nat);
                    if pre.contents().contains_key(gk) {
                        assert(ht.contents()[gk] == cur + w);
                    } else {
                        assert(ht.contents()[gk] == w);
                        lemma_sum_weights_absent(recs@, i - 1, id);
                    }
                } else {
                    assert(jid != id) by {
                        if jid == id {
                            assert(jk == gk);
                        }
                    }
                    assert(ht.contents().remove(gk)[jk] == ht.contents()[jk]);
                    assert(pre.contents().remove(gk)[jk] == pre.contents()[jk]);
                    assert(j < i - 1) by {
                        if j == i - 1 {
                            assert(jid == id);
                        }
                    }
                }
            }
        }
    }
    proof {
        assert(recs@.take(n as int) =~= recs@);
    }
    Ok(ht)
}

/// When no processed record has this id, the running sum is zero.
proof fn lemma_sum_weights_absent(recs: Seq<PostRecord>, i: int, id: usize)
    requires
        0 <= i <= recs.len(),
        forall|j: int| 0 <= j < i ==> (#[trigger] recs[j]).doc_id != id,
    ensures
        sum_weights(recs.take(i), id) == 0,
    decreases i,
{
    if i > 0 {
        assert(recs.take(i).drop_last() =~= recs.take(i - 1));
        assert(recs.take(i).last() == recs[i - 1]);
        lemma_sum_weights_absent(recs, i - 1, id);
    } else {
        assert(recs.take(0) =~= Seq::<PostRecord>::empty());
    }
}

// ----- ranking -----
/// The numeric value of an accumulator key.
pub open spec fn key_value(k: Seq<char>) -> int {
    spec_dec_value(vstd::utf8::encode_utf8(k)) as int
}

/// The candidates of the accumulator, in slot order.
pub open spec fn spec_cands(s: Seq<Option<TableEntry<usize>>>, i: int) -> Seq<PostRecord>
    decreases s.len() - i,
        when i >= 0
{
    if i >= s.len() {
        Seq::empty()
    } else {
        (match s[i] {
            Some(e) => seq![(PostRecord { doc_id: key_value(e.key@) as usize, weight: e.value })],
            None => Seq::empty(),
        }) + spec_cands(s, i + 1)
    }
}

/// Inserts a record into a weight-descending list, after records of equal
/// weight: ties keep insertion order.
pub open spec fn spec_insert_desc(s: Seq<PostRecord>, x: PostRecord) -> Seq<PostRecord>
    decreases s.len(),
{
    if s.len() == 0 {
        seq![x]
    } else if x.weight > s[0].weight {
        seq![x] + s
    } else {
        seq![s[0]] + spec_insert_desc(s.drop_first(), x)
    }
}

/// The candidates sorted by weight descending, stable.
pub open spec fn spec_sort_desc(s: Seq<PostRecord>) -> Seq<PostRecord>
    decreases s.len(),
{
    if s.len() == 0 {
        Seq::empty()
    } else {
        spec_insert_desc(spec_sort_desc(s.drop_last()), s.last())
    }
}

/// Weight-descending order.
pub open spec fn sorted_desc(s: Seq<PostRecord>) -> bool {
    forall|i: int, j: int| 0 <= i < j < s.len() ==> (#[trigger] s[i]).weight >= (#[trigger] s[j]).weight
}

pub proof fn lemma_insert_desc_props(s: Seq<PostRecord>, x: PostRecord)
    requires
        sorted_desc(s),
    ensures
        sorted_desc(spec_insert_desc(s, x)),
        spec_insert_desc(s, x).len() == s.len() + 1,
        spec_insert_desc(s, x).to_multiset() == s.to_multiset().insert(x),
    decreases s.len(),
{
    let out = spec_insert_desc(s, x);
    if s.len() == 0 {
        assert(out =~= seq![x]);
        assert(seq![x].to_multiset() == Seq::<PostRecord>::empty().to_multiset().insert(x)) by {
            Seq::<PostRecord>::empty().to_multiset_ensures();
            seq![x].to_multiset_ensures();
            assert(seq![x].drop_first() =~= Seq::<PostRecord>::empty());
            assert(seq![x] =~= Seq::<PostRecord>::empty().push(x));
        }
        assert(s =~= Seq::<PostRecord>::empty());
    } else if x.weight > s[0].weight {
        assert(out =~= seq![x] + s);
        assert forall|i: int, j: int| 0 <= i < j < out.len() implies (#[trigger] out[i]).weight
            >= (#[trigger] out[j]).weight by {
            if i > 0 {
                assert(out[i] == s[i - 1]);
                assert(out[j] == s[j - 1]);
            } else {
                assert(out[j] == s[j - 1]);
                if j - 1 > 0 {
                    assert(s[0].weight >= s[j - 1].weight);
                }
            }
        }
        assert((seq![x] + s).to_multiset() == s.to_multiset().insert(x)) by {
            assert(seq![x] + s =~= s.insert(0, x));
            vstd::seq_lib::to_multiset_insert(s, 0, x);
        }
    } else {
        let rest = s.drop_first();
        assert(sorted_desc(rest)) by {
            assert(forall|i: int, j: int|
                0 <= i < j < rest.len() ==> rest[i] == s[i + 1] && rest[j] == s[j + 1]);
        }
        lemma_insert_desc_props(rest, x);
        let sub = spec_insert_desc(rest, x);
        assert(out =~= seq![s[0]] + sub);
        // the head dominates everything in sub: every element of sub is
        // either x (weight <= s[0]) or an element of rest
        assert forall|q: int| 0 <= q < sub.len() implies s[0].weight >= (
        #[trigger] sub[q]).weight by {
            sub.to_multiset_ensures();
            assert(sub.to_multiset().count(sub[q]) > 0) by {
                sub.to_multiset_ensures();
            }
            assert(sub.to_multiset() == rest.to_multiset().insert(x));
            if sub[q] == x {
            } else {
                assert(rest.to_multiset().count(sub[q]) > 0);
                rest.to_multiset_ensures();
                assert(rest.contains(sub[q]));
                let q2 = choose|q2: int| 0 <= q2 < rest.len() && rest[q2] == sub[q];
                assert(s[q2 + 1] == sub[q]);
            }
        }
        assert forall|i: int, j: int| 0 <= i < j < out.len() implies (#[trigger] out[i]).weight
            >= (#[trigger] out[j]).weight by {
            if i > 0 {
                assert(out[i] == sub[i - 1] && out[j] == sub[j - 1]);
            } else {
                assert(out[j] == sub[j - 1]);
            }
        }
        assert(out.to_multiset() == s.to_multiset().insert(x)) by {
            assert(out =~= sub.insert(0, s[0]));
            vstd::seq_lib::to_multiset_insert(sub, 0, s[0]);
            assert(s =~= rest.insert(0, s[0]));
            vstd::seq_lib::to_multiset_insert(rest, 0, s[0]);
            assert(out.to_multiset() == sub.to_multiset().insert(s[0]));
            assert(sub.to_multiset() == rest.to_multiset().insert(x));
            assert(s.to_multiset() == rest.to_multiset().insert(s[0]));
            assert(rest.to_multiset().insert(x).insert(s[0]) =~= rest.to_multiset().insert(
                s[0],
            ).insert(x));
        }
    }
}

/// The sorted list is a weight-descending permutation of the candidates.
pub proof fn lemma_sort_desc_props(s: Seq<PostRecord>)
    ensures
        sorted_desc(spec_sort_desc(s)),
        spec_sort_desc(s).len() == s.len(),
        spec_sort_desc(s).to_multiset() == s.to_multiset(),
    decreases s.len(),
{
    if s.len() == 0 {
        assert(s =~= Seq::<PostRecord>::empty());
        assert(spec_sort_desc(s) =~= Seq::<PostRecord>::empty());
    } else {
        lemma_sort_desc_props(s.drop_last());
        lemma_insert_desc_props(spec_sort_desc(s.drop_last()), s.last());
        vstd::seq_lib::to_multiset_insert(s.drop_last(), s.drop_last().len() as int, s.last());
        assert(s.drop_last().insert(s.drop_last().len() as int, s.last()) =~= s);
        assert(spec_sort_desc(s) == spec_insert_desc(spec_sort_desc(s.drop_last()), s.last()));
        assert(spec_sort_desc(s).to_multiset() == spec_sort_desc(
            s.drop_last(),
        ).to_multiset().insert(s.last()));
        assert(s.drop_last().insert(s.drop_last().len() as int, s.last()).to_multiset()
            == s.drop_last().to_multiset().insert(s.last()));
        assert(s.to_multiset() == s.drop_last().to_multiset().insert(s.last()));
    }
}

/// Inserts `x` into the weight-descending vector, after equal weights.
fn insert_sorted(v: &mut Vec<PostRecord>, x: PostRecord)
    ensures
        final(v)@ == spec_insert_desc(old(v)@, x),
{
    let n = v.len();
    let mut idx: usize = 0;
    proof {
        assert(old(v)@.skip(0) =~= old(v)@);
        assert(old(v)@.take(0) + spec_insert_desc(old(v)@, x) =~= spec_insert_desc(old(v)@, x));
    }
    while idx < n && x.weight <= v[idx].weight
        invariant
            idx <= n,
            n == v@.len(),
            v@ == old(v)@,
            spec_insert_desc(old(v)@, x) == old(v)@.take(idx as int) + spec_insert_desc(
                old(v)@.skip(idx as int),
                x,
            ),
        decreases n - idx,
    {
        proof {
            let u = old(v)@.skip(idx as int);
            assert(u[0] == old(v)@[idx as int]);
            assert(u.drop_first() =~= old(v)@.skip(idx + 1));
            assert(spec_insert_desc(u, x) == seq![u[0]] + spec_insert_desc(u.drop_first(), x));
            assert(old(v)@.take(idx as int) + (seq![u[0]] + spec_insert_desc(
                old(v)@.skip(idx + 1),
                x,
            )) =~= old(v)@.take(idx + 1) + spec_insert_desc(old(v)@.skip(idx + 1), x));
        }
        idx = idx + 1;
    }
    proof {
        let u = old(v)@.skip(idx as int);
        if idx < n {
            assert(u[0] == old(v)@[idx as int]);
            assert(spec_insert_desc(u, x) == seq![x] + u);
        } else {
            assert(u =~= Seq::<PostRecord>::empty());
            assert(spec_insert_desc(u, x) == seq![x]);
        }
    }
    v.insert(idx, x);
    proof {
        assert(final(v)@ =~= old(v)@.take(idx as int) + spec_insert_desc(
            old(v)@.skip(idx as int),
            x,
        )) by {
            if idx < n {
                assert(final(v)@ =~= old(v)@.take(idx as int) + (seq![x] + old(v)@.skip(
                    idx as int,
                )));
            } else {
                assert(final(v)@ =~= old(v)@.take(idx as int) + seq![x]);
            }
        }
    }
}

/// Ranks the accumulated candidates: the top `num_results` by weight
/// descending, ties in slot (insertion) order; fewer candidates than
/// `num_results` are all returned, sorted.
pub fn get_sorted_results(query_ht: HashTable<usize>, num_results: usize) -> (r: Vec<PostRecord>)
    requires
        query_ht.wf(),
        forall|k: Seq<char>| #[trigger] query_ht.contents().contains_key(k) ==> key_parses(k),
    ensures
        ({
            let sorted = spec_sort_desc(spec_cands(query_ht.slots(), 0));
            r@ == if num_results < sorted.len() {
                sorted.take(num_results as int)
            } else {
                sorted
            }
        }),
{
    let buckets = query_ht.get_buckets();
    let n = buckets.len();
    let ghost s = query_ht.slots();
    let mut cands: Vec<PostRecord> = Vec::new();
    let mut i: usize = 0;
    proof {
        assert(Seq::<PostRecord>::empty() + spec_cands(s, 0) =~= spec_cands(s, 0));
    }
    while i < n
        invariant
            i <= n,
            n == s.len(),
            buckets@ == s,
            query_ht.wf(),
            s == query_ht.slots(),
            forall|k: Seq<char>|
                #[trigger] query_ht.contents().contains_key(k) ==> key_parses(k),
            spec_cands(s, 0) == cands@ + spec_cands(s, i as int),
        decreases n - i,
    {
        match &buckets[i] {
            Some(entry) => {
                proof {
                    assert(s[i as int] is Some);
                    assert(crate::hashtable::has_key(s, entry.key@)) by {
                        assert(crate::hashtable::slot_key(s[i as int]) == entry.key@);
                    }
                    crate::hashtable::lemma_entries_map_domain(s, entry.key@);
                    assert(query_ht.contents().contains_key(entry.key@));
                    assert(key_parses(entry.key@));
                }
                let kb = entry.key.as_str().as_bytes_vec();
                let id = match parse_dec_value(&kb, 0, kb.len()) {
                    Some(v) => v,
                    None => {
                        proof {
                            assert(kb@.subrange(0, kb@.len() as int) =~= kb@);
                            assert(false);
                        }
                        0
                    },
                };
                proof {
                    assert(kb@.subrange(0, kb@.len() as int) =~= kb@);
                }
                cands.push(PostRecord { doc_id: id, weight: entry.value });
                proof {
                    assert(spec_cands(s, i as int) == seq![
                        (PostRecord {
                            doc_id: key_value(crate::hashtable::slot_key(s[i as int])) as usize,
                            weight: s[i as int]->Some_0.value,
                        }),
                    ] + spec_cands(s, i + 1));
                    assert(cands@ + spec_cands(s, i + 1) =~= cands@.drop_last() + spec_cands(
                        s,
                        i as int,
                    ));
                }
            },
            None => {
                proof {
                    assert(spec_cands(s, i as int) =~= Seq::<PostRecord>::empty() + spec_cands(
                        s,
                        i + 1,
                    ));
                }
            },
        }
        i = i + 1;
    }
    proof {
        assert(spec_cands(s, n as int) =~= Seq::<PostRecord>::empty());
        assert(cands@ =~= spec_cands(s, 0));
    }
    // stable insertion sort by weight descending
    let m = cands.len();
    let mut sorted: Vec<PostRecord> = Vec::new();
    let mut j: usize = 0;
    proof {
        assert(cands@.take(0) =~= Seq::<PostRecord>::empty());
    }
    while j < m
        invariant
            j <= m,
            m == cands@.len(),
            sorted@ == spec_sort_desc(cands@.take(j as int)),
        decreases m - j,
    {
        proof {
            assert(cands@.take(j + 1).drop_last() =~= cands@.take(j as int));
            assert(cands@.take(j + 1).last() == cands@[j as int]);
        }
        insert_sorted(&mut sorted, cands[j]);
        j = j + 1;
    }
    proof {
        assert(cands@.take(m as int) =~= cands@);
    }
    // keep the first num_results
    if sorted.len() <= num_results {
        return sorted;
    }
    let mut out: Vec<PostRecord> = Vec::new();
    let mut q: usize = 0;
    while q < num_results
        invariant
            q <= num_results,
            num_results < sorted@.len(),
            out@ =~= sorted@.take(q as int),
            sorted@ == spec_sort_desc(spec_cands(query_ht.slots(), 0)),
        decreases num_results - q,
    {
        proof {
            assert(sorted@.take(q + 1) =~= sorted@.take(q as int).push(sorted@[q as int]));
        }
        out.push(sorted[q]);
        q = q + 1;
    }
    out
}

// ----- resolving names -----
/// All bytes ASCII.
pub open spec fn ascii_bytes(s: Seq<u8>) -> bool {
    forall|i: int| 0 <= i < s.len() ==> #[trigger] s[i] < 128
}

/// The trimmed name bytes of document `doc_id`, empty when the record lies
/// beyond the map file.
pub open spec fn spec_doc_name(b: Seq<u8>, sizes: FileSizes, doc_id: int) -> Seq<u8> {
    let rs = sizes.map_name_length + 1;
    let off = doc_id * rs;
    if off < 0 || off + rs > b.len() {
        Seq::empty()
    } else {
        spec_trim(b.subrange(off, off + rs))
    }
}

/// Relies on String::from_utf8_lossy: ASCII bytes decode to the characters
/// of the same code points.
#[verifier::external_body]
fn lossy_string(b: &Vec<u8>) -> (r: String)
    ensures
        ascii_bytes(b@) ==> r@ == bytes_to_chars(b@),
{
    String::from_utf8_lossy(b.as_slice()).into_owned()
}

/// Reads and trims one map line; an out-of-range id yields the empty name.
pub fn get_doc_name(map: &Vec<u8>, doc_id: usize, sizes: &FileSizes) -> (r: String)
    requires
        sizes_ok(*sizes),
    ensures
        ascii_bytes(spec_doc_name(map@, *sizes, doc_id as int)) ==> r@ == bytes_to_chars(
            spec_doc_name(map@, *sizes, doc_id as int),
        ),
{
    let rs = sizes.get_map_record_size();
    let n = map.len();
    if rs > n || doc_id > (n - rs) / rs {
        proof {
            assert(doc_id as int * rs as int + rs > n) by {
                if doc_id as int * rs + rs <= n {
                    assert(doc_id as int * rs <= n - rs);
                    vstd::arithmetic::div_mod::lemma_div_is_ordered(
                        doc_id as int * rs,
                        (n - rs) as int,
                        rs as int,
                    );
                    vstd::arithmetic::div_mod::lemma_div_by_multiple(doc_id as int, rs as int);
                }
            }
            assert(spec_doc_name(map@, *sizes, doc_id as int) =~= Seq::<u8>::empty());
        }
        let empty: Vec<u8> = Vec::new();
        return lossy_string(&empty);
    }
    proof {
        assert(doc_id * rs + rs <= n) by {
            assert(doc_id as int <= (n - rs) as int / (rs as int));
            vstd::arithmetic::mul::lemma_mul_inequality(
                doc_id as int,
                (n - rs) as int / (rs as int),
                rs as int,
            );
            vstd::arithmetic::div_mod::lemma_fundamental_div_mod((n - rs) as int, rs as int);
            vstd::arithmetic::div_mod::lemma_mod_bound((n - rs) as int, rs as int);
            vstd::arithmetic::mul::lemma_mul_is_commutative(
                (n - rs) as int / (rs as int),
                rs as int,
            );
        }
    }
    let off = doc_id * rs;
    let (lo, hi) = trim_range(map, off, off + rs);
    let name_b = slice_vec_pub(map, lo, hi);
    lossy_string(&name_b)
}

/// Resolves each ranked posting to its document name.
pub fn get_named_results(map: &Vec<u8>, results: &Vec<PostRecord>, sizes: &FileSizes) -> (r: Vec<
    NamedResult,
>)
    requires
        sizes_ok(*sizes),
    ensures
        r@.len() == results@.len(),
        forall|j: int|
            0 <= j < r@.len() ==> (#[trigger] r@[j]).weight == results@[j].weight,
        forall|j: int|
            0 <= j < r@.len() ==> (ascii_bytes(
                spec_doc_name(map@, *sizes, (#[trigger] results@[j]).doc_id as int),
            ) ==> r@[j].name@ == bytes_to_chars(
                spec_doc_name(map@, *sizes, results@[j].doc_id as int),
            )),
{
    let mut out: Vec<NamedResult> = Vec::new();
    let n = results.len();
    let mut i: usize = 0;
    while i < n
        invariant
            i <= n,
            n == results@.len(),
            sizes_ok(*sizes),
            out@.len() == i,
            forall|j: int|
                0 <= j < i ==> (#[trigger] out@[j]).weight == results@[j].weight,
            forall|j: int|
                0 <= j < i ==> (ascii_bytes(
                    spec_doc_name(map@, *sizes, (#[trigger] results@[j]).doc_id as int),
                ) ==> out@[j].name@ == bytes_to_chars(
                    spec_doc_name(map@, *sizes, results@[j].doc_id as int),
                )),
        decreases n - i,
    {
        let name = get_doc_name(map, results[i].doc_id, sizes);
        out.push(NamedResult { name, weight: results[i].weight });
        i = i + 1;
    }
    out
}

/// An occupied accumulator slot answers one record's document: its
/// candidate's id occurs among the records, and its weight is that
/// document's accumulated weight.
proof fn lemma_slot_id_facts(ht: HashTable<usize>, recs: Seq<PostRecord>, t: int)
    requires
        ht.wf(),
        forall|k: Seq<char>|
            #[trigger] ht.contents().contains_key(k) <==> (exists|j: int|
                0 <= j < recs.len() && dec_chars((#[trigger] recs[j]).doc_id as nat) == k),
        forall|j: int|
            0 <= j < recs.len() ==> ht.contents()[dec_chars(
                (#[trigger] recs[j]).doc_id as nat,
            )] as int == sum_weights(recs, recs[j].doc_id),
        0 <= t < ht.slots().len(),
        ht.slots()[t] is Some,
    ensures
        exists|j: int|
            0 <= j < recs.len() && cand_of(ht.slots(), t).doc_id == (
            #[trigger] recs[j]).doc_id && cand_of(ht.slots(), t).weight as int == sum_weights(
                recs,
                recs[j].doc_id,
            ) && dec_chars(recs[j].doc_id as nat) == crate::hashtable::slot_key(
                ht.slots()[t],
            ),
{
    let s = ht.slots();
    let k = crate::hashtable::slot_key(s[t]);
    assert(crate::hashtable::has_key(s, k)) by {
        assert(s[t] is Some && crate::hashtable::slot_key(s[t]) == k);
    }
    crate::hashtable::lemma_entries_map_domain(s, k);
    assert(ht.contents().contains_key(k));
    let j = choose|j: int|
        0 <= j < recs.len() && dec_chars((#[trigger] recs[j]).doc_id as nat) == k;
    let id = recs[j].doc_id;
    lemma_dec_chars_parses(id as nat);
    assert(key_value(k) == id);
    assert forall|t2: int|
        0 <= t2 < s.len() && #[trigger] s[t2] is Some && t2 != t
            implies crate::hashtable::slot_key(s[t2]) != crate::hashtable::slot_key(s[t]) by {
        if crate::hashtable::slot_key(s[t2]) == crate::hashtable::slot_key(s[t]) {
            crate::hashtable::lemma_key_unique(s, t2, t);
        }
    }
    crate::hashtable::lemma_entries_map_value(s, t);
    assert(ht.contents()[k] == s[t]->Some_0.value);
    assert(cand_of(s, t).doc_id == id);
    assert(cand_of(s, t).weight as int == sum_weights(recs, id));
}

/// The ranked, named rows answer the accumulated postings: builds the
/// witness id sequence for `result_rows_match` from the accumulator table,
/// the stable descending sort, and the name resolution.
#[verifier::rlimit(60)]
#[verifier::spinoff_prover]
proof fn lemma_rows_witness(
    query_ht: HashTable<usize>,
    post_records: Seq<PostRecord>,
    sorted_results: Seq<PostRecord>,
    named: Seq<NamedResult>,
    mapb: Seq<u8>,
    sizes: FileSizes,
    num_results: usize,
)
    requires
        query_ht.wf(),
        forall|k: Seq<char>|
            #[trigger] query_ht.contents().contains_key(k) <==> (exists|j: int|
                0 <= j < post_records.len() && dec_chars(
                    (#[trigger] post_records[j]).doc_id as nat,
                ) == k),
        forall|j: int|
            0 <= j < post_records.len() ==> query_ht.contents()[dec_chars(
                (#[trigger] post_records[j]).doc_id as nat,
            )] as int == sum_weights(post_records, post_records[j].doc_id),
        ({
            let sorted = spec_sort_desc(spec_cands(query_ht.slots(), 0));
            sorted_results == if num_results < sorted.len() {
                sorted.take(num_results as int)
            } else {
                sorted
            }
        }),
        named.len() == sorted_results.len(),
        forall|i: int|
            0 <= i < named.len() ==> (#[trigger] named[i]).weight == sorted_results[i].weight,
        forall|i: int|
            0 <= i < named.len() ==> (ascii_bytes(
                spec_doc_name(mapb, sizes, (#[trigger] sorted_results[i]).doc_id as int),
            ) ==> named[i].name@ == bytes_to_chars(
                spec_doc_name(mapb, sizes, sorted_results[i].doc_id as int),
            )),
    ensures
        exists|ids: Seq<usize>|
            #[trigger] result_rows_match(
                named,
                ids,
                posts_view(post_records),
                mapb,
                sizes,
                num_results,
            ),
{
    let ghost ps = posts_view(post_records);
    let slots = query_ht.slots();
    let cands = spec_cands(slots, 0);
    let sorted = spec_sort_desc(cands);
    let pre = sorted_results;
    let recs = post_records;
    let ids = Seq::new(pre.len(), |i: int| pre[i].doc_id);
    lemma_sort_desc_props(cands);
    cands.to_multiset_ensures();
    sorted.to_multiset_ensures();
    // each occupied slot answers one record's document
    assert forall|t1: int, t2: int|
        0 <= t1 < slots.len() && 0 <= t2 < slots.len() && #[trigger] slots[t1] is Some
            && #[trigger] slots[t2] is Some && t1 != t2 implies cand_of(
        slots,
        t1,
    ).doc_id != cand_of(slots, t2).doc_id by {
        lemma_slot_id_facts(query_ht, recs, t1);
        lemma_slot_id_facts(query_ht, recs, t2);
        if cand_of(slots, t1).doc_id == cand_of(slots, t2).doc_id {
            let j1 = choose|j: int|
                0 <= j < recs.len() && cand_of(slots, t1).doc_id == (
                #[trigger] recs[j]).doc_id && cand_of(slots, t1).weight as int
                    == sum_weights(recs, recs[j].doc_id) && dec_chars(
                    recs[j].doc_id as nat,
                ) == crate::hashtable::slot_key(slots[t1]);
            let j2 = choose|j: int|
                0 <= j < recs.len() && cand_of(slots, t2).doc_id == (
                #[trigger] recs[j]).doc_id && cand_of(slots, t2).weight as int
                    == sum_weights(recs, recs[j].doc_id) && dec_chars(
                    recs[j].doc_id as nat,
                ) == crate::hashtable::slot_key(slots[t2]);
            assert(recs[j1].doc_id == recs[j2].doc_id);
            assert(crate::hashtable::slot_key(slots[t1])
                == crate::hashtable::slot_key(slots[t2]));
            crate::hashtable::lemma_key_unique(slots, t1, t2);
        }
    }
    lemma_cands_no_dup(slots);
    cands.lemma_multiset_has_no_duplicates();
    assert(forall|x: PostRecord|
        sorted.to_multiset().contains(x) ==> sorted.to_multiset().count(x) == 1);
    sorted.lemma_multiset_has_no_duplicates_conv();
    // every ranked row restates one candidate
    assert(pre.len() == ids.len());
    assert forall|i: int| 0 <= i < pre.len() implies posts_contain_id(
        ps,
        #[trigger] ids[i],
    ) && pre[i].weight as int == sum_weights_p(ps, ids[i]) by {
        assert(pre[i] == sorted[i]) by {
            if num_results < sorted.len() {
                assert(pre[i] == sorted.take(num_results as int)[i]);
            }
        }
        assert(sorted.contains(sorted[i]));
        assert(cands.to_multiset().count(sorted[i]) > 0);
        assert(cands.contains(sorted[i]));
        let q = choose|q: int| 0 <= q < cands.len() && cands[q] == sorted[i];
        lemma_cands_elem(slots, 0, q);
        let t = choose|t: int|
            0 <= t < slots.len() && slots[t] is Some && #[trigger] cand_of(slots, t)
                == cands[q];
        lemma_slot_id_facts(query_ht, recs, t);
        let j = choose|j: int|
            0 <= j < recs.len() && cand_of(slots, t).doc_id == (
            #[trigger] recs[j]).doc_id && cand_of(slots, t).weight as int
                == sum_weights(recs, recs[j].doc_id) && dec_chars(
                recs[j].doc_id as nat,
            ) == crate::hashtable::slot_key(slots[t]);
        assert(ids[i] == recs[j].doc_id);
        assert(ps[j].0 == recs[j].doc_id);
        assert(posts_contain_id(ps, ids[i]));
        lemma_sum_weights_view(recs, recs[j].doc_id);
        assert(pre[i].weight as int == sum_weights_p(ps, ids[i]));
    }
    // distinct rows
    assert forall|i1: int, i2: int| 0 <= i1 < i2 < ids.len() implies #[trigger] ids[i1]
        != #[trigger] ids[i2] by {
        assert(pre[i1] == sorted[i1] && pre[i2] == sorted[i2]) by {
            if num_results < sorted.len() {
                assert(pre[i1] == sorted.take(num_results as int)[i1]);
                assert(pre[i2] == sorted.take(num_results as int)[i2]);
            }
        }
        assert(sorted[i1] != sorted[i2]);
        if ids[i1] == ids[i2] {
            let q1 = choose|q: int| 0 <= q < cands.len() && cands[q] == sorted[i1];
            let q2 = choose|q: int| 0 <= q < cands.len() && cands[q] == sorted[i2];
            assert(sorted.contains(sorted[i1]));
            assert(cands.to_multiset().count(sorted[i1]) > 0);
            assert(cands.contains(sorted[i1]));
            assert(sorted.contains(sorted[i2]));
            assert(cands.to_multiset().count(sorted[i2]) > 0);
            assert(cands.contains(sorted[i2]));
            lemma_cands_elem(slots, 0, q1);
            lemma_cands_elem(slots, 0, q2);
            let t1 = choose|t: int|
                0 <= t < slots.len() && slots[t] is Some && #[trigger] cand_of(slots, t)
                    == cands[q1];
            let t2 = choose|t: int|
                0 <= t < slots.len() && slots[t] is Some && #[trigger] cand_of(slots, t)
                    == cands[q2];
            if t1 == t2 {
                assert(sorted[i1] == sorted[i2]);
            } else {
                assert(cand_of(slots, t1).doc_id != cand_of(slots, t2).doc_id);
            }
        }
    }
    // a present document is ranked, or the result is full and it
    // cannot outweigh the last ranked row
    assert forall|id: usize| posts_contain_id(ps, id) && !ids.contains(id)
        implies pre.len() == num_results && (pre.len() > 0 ==> sum_weights_p(ps, id)
        <= pre[pre.len() - 1].weight) by {
        let j = choose|j: int| 0 <= j < ps.len() && (#[trigger] ps[j]).0 == id;
        assert(recs[j].doc_id == id);
        assert(query_ht.contents().contains_key(dec_chars(id as nat))) by {
            assert(dec_chars((#[trigger] recs[j]).doc_id as nat) == dec_chars(
                id as nat,
            ));
        }
        crate::hashtable::lemma_entries_map_domain(slots, dec_chars(id as nat));
        assert(crate::hashtable::has_key(slots, dec_chars(id as nat)));
        let t = choose|t: int|
            0 <= t < slots.len() && #[trigger] slots[t] is Some
                && crate::hashtable::slot_key(slots[t]) == dec_chars(id as nat);
        lemma_dec_chars_parses(id as nat);
        assert(cand_of(slots, t).doc_id == id);
        lemma_cands_contains_slot(slots, 0, t);
        assert(cands.to_multiset().count(cand_of(slots, t)) > 0);
        assert(sorted.contains(cand_of(slots, t)));
        let p = choose|p: int| 0 <= p < sorted.len() && sorted[p] == cand_of(slots, t);
        if p < pre.len() {
            assert(pre[p] == sorted[p]) by {
                if num_results < sorted.len() {
                    assert(pre[p] == sorted.take(num_results as int)[p]);
                }
            }
            assert(ids[p] == id);
            assert(ids.contains(id));
        } else {
            assert(pre.len() < sorted.len());
            assert(pre.len() == num_results);
            if pre.len() > 0 {
                assert(sorted_desc(sorted));
                assert(sorted[p].weight <= sorted[pre.len() - 1].weight);
                assert(pre[pre.len() - 1] == sorted[pre.len() - 1]) by {
                    assert(pre[pre.len() - 1] == sorted.take(num_results as int)[pre.len()
                        - 1]);
                }
                lemma_slot_id_facts(query_ht, recs, t);
                let j2 = choose|jx: int|
                    0 <= jx < recs.len() && cand_of(slots, t).doc_id == (
                    #[trigger] recs[jx]).doc_id && cand_of(slots, t).weight as int
                        == sum_weights(recs, recs[jx].doc_id) && dec_chars(
                        recs[jx].doc_id as nat,
                    ) == crate::hashtable::slot_key(slots[t]);
                lemma_sum_weights_view(recs, recs[j2].doc_id);
                assert(sum_weights_p(ps, id) == cand_of(slots, t).weight as int);
            }
        }
    }
    // assemble the witness
    assert forall|i: int| 0 <= i < named.len() implies (#[trigger] named[i]).weight
        as int == sum_weights_p(ps, ids[i]) by {
        assert(named[i].weight == pre[i].weight);
    }
    assert(result_rows_match(named, ids, ps, mapb, sizes, num_results)) by {
        assert(named.len() == pre.len());
        assert forall|i: int|
            0 <= i < named.len() implies (ascii_bytes(
            spec_doc_name(mapb, sizes, #[trigger] ids[i] as int),
        ) ==> named[i].name@ == bytes_to_chars(
            spec_doc_name(mapb, sizes, ids[i] as int),
        )) by {
            assert(ids[i] == sorted_results[i].doc_id);
        }
        if named.len() != num_results {
            assert forall|id: usize| posts_contain_id(ps, id) implies #[trigger] ids.contains(
                id,
            ) by {
                if !ids.contains(id) {
                    assert(pre.len() == num_results);
                }
            }
        }
    }

}

// ----- the whole query -----
/// Evaluates one query against an index: tokenize, probe the dictionary,
/// read the postings, accumulate per-document weights, rank, and resolve
/// names. On an evaluable index the call succeeds and the rows answer the
/// accumulated postings (`query_answered`); a query with no tokens, or
/// whose tokens are all stopwords or all absent, returns the empty result;
/// a malformed sizes file or record is an error.
#[verifier::rlimit(100)]
#[verifier::spinoff_prover]
pub fn make_query(query: &String, index: &IndexFiles, num_results: usize) -> (r: Result<
    Vec<NamedResult>,
    QueryError,
>)
    ensures
        spec_parse_sizes(index.sizes@) is None ==> r is Err,
        (match spec_parse_sizes(index.sizes@) {
            Some(s) => !sizes_ok(s),
            None => false,
        }) ==> r is Err,
        r matches Ok(res) ==> res@.len() <= num_results,
        r matches Ok(res) ==> (forall|i: int, j: int|
            0 <= i < j < res@.len() ==> (#[trigger] res@[i]).weight >= (
            #[trigger] res@[j]).weight),
        (match spec_parse_sizes(index.sizes@) {
            Some(s) => sizes_ok(s) && spec_parse(vstd::utf8::encode_utf8(query@)).len() == 0,
            None => false,
        }) ==> (r matches Ok(res) && res@.len() == 0),
        (match spec_parse_sizes(index.sizes@) {
            Some(s) => sizes_ok(s) && (forall|j: int|
                0 <= j < spec_parse(vstd::utf8::encode_utf8(query@)).len() ==> spec_probe(
                    index.dict@,
                    s,
                    #[trigger] spec_parse(vstd::utf8::encode_utf8(query@))[j],
                ) is Missing),
            None => false,
        }) ==> (r matches Ok(res) && res@.len() == 0),
        evaluable(
            index.dict@,
            index.post@,
            index.sizes@,
            spec_parse(vstd::utf8::encode_utf8(query@)),
        ) ==> (r is Ok && query_answered(
            (r->Ok_0)@,
            index.dict@,
            index.post@,
            index.sizes@,
            index.map@,
            spec_parse(vstd::utf8::encode_utf8(query@)),
            num_results,
        )),
{
    let sizes = match parse_sizes(&index.sizes) {
        Some(s) => s,
        None => {
            return Err(QueryError::Parse);
        },
    };
    // record arithmetic must be usable
    if sizes.num_dict_lines < 1 || sizes.num_dict_lines > usize::MAX - 3 {
        return Err(QueryError::Parse);
    }
    if sizes.num_docs_length > usize::MAX - TERM_LENGTH - 3 || sizes.post_line_start_length
        > usize::MAX - TERM_LENGTH - 3 - sizes.num_docs_length {
        return Err(QueryError::Parse);
    }
    if sizes.weight_length > usize::MAX - 2 || sizes.doc_id_length > usize::MAX - 2
        - sizes.weight_length {
        return Err(QueryError::Parse);
    }
    if sizes.map_name_length > usize::MAX - 1 {
        return Err(QueryError::Parse);
    }
    proof {
        assert(sizes_ok(sizes));
    }
    let ghost toks = spec_parse(vstd::utf8::encode_utf8(query@));
    let ghost hyp_empty = (match spec_parse_sizes(index.sizes@) {
        Some(s) => sizes_ok(s) && spec_parse(vstd::utf8::encode_utf8(query@)).len() == 0,
        None => false,
    });
    let ghost hyp_missing = (match spec_parse_sizes(index.sizes@) {
        Some(s) => sizes_ok(s) && (forall|j: int|
            0 <= j < spec_parse(vstd::utf8::encode_utf8(query@)).len() ==> spec_probe(
                index.dict@,
                s,
                #[trigger] spec_parse(vstd::utf8::encode_utf8(query@))[j],
            ) is Missing),
        None => false,
    });
    let ghost hyp_eval = evaluable(index.dict@, index.post@, index.sizes@, toks);
    let tokens = get_query_tokens(query);
    proof {
        assert(tokens@.map_values(|t: String| t@) =~= toks);
        if hyp_empty {
            assert(tokens@.map_values(|t: String| t@) =~= Seq::<Seq<char>>::empty());
        }
        if hyp_missing {
            lemma_all_missing_empty(index.dict@, sizes, toks);
        }
    }
    let dict_records = match get_dict_records(&index.dict, &tokens, &sizes) {
        Ok(v) => v,
        Err(e) => {
            return Err(e);
        },
    };
    let ghost grecs = dict_recs_view(dict_records@);
    proof {
        if hyp_empty || hyp_missing {
            assert(dict_recs_view(dict_records@).len() == 0);
            assert(dict_records@.len() == 0);
        }
        assert(spec_dict_records(index.dict@, sizes, toks) == Some(grecs));
    }
    // the number of candidate documents
    let mut expected_docs: usize = 0;
    let nrec = dict_records.len();
    let mut i: usize = 0;
    while i < nrec
        invariant
            i <= nrec,
            nrec == dict_records@.len(),
            hyp_empty == (match spec_parse_sizes(index.sizes@) {
                Some(s) => sizes_ok(s) && spec_parse(vstd::utf8::encode_utf8(query@)).len()
                    == 0,
                None => false,
            }),
            hyp_missing == (match spec_parse_sizes(index.sizes@) {
                Some(s) => sizes_ok(s) && (forall|j: int|
                    0 <= j < spec_parse(vstd::utf8::encode_utf8(query@)).len() ==> spec_probe(
                        index.dict@,
                        s,
                        #[trigger] spec_parse(vstd::utf8::encode_utf8(query@))[j],
                    ) is Missing),
                None => false,
            }),
            (hyp_empty || hyp_missing) ==> nrec == 0,
            (hyp_empty || hyp_missing) ==> expected_docs == 0,
            hyp_eval == evaluable(index.dict@, index.post@, index.sizes@, toks),
            toks == spec_parse(vstd::utf8::encode_utf8(query@)),
            sizes == spec_parse_sizes(index.sizes@)->Some_0,
            spec_parse_sizes(index.sizes@) == Some(sizes),
            grecs == dict_recs_view(dict_records@),
            grecs.len() == nrec,
            spec_dict_records(index.dict@, sizes, toks) == Some(grecs),
            expected_docs as int == sum_nd(grecs.take(i as int)),
            hyp_eval ==> sum_nd(grecs) <= (usize::MAX - 3) / 8,
        decreases nrec - i,
    {
        proof {
            lemma_sum_nd_take_step(grecs, i as int);
            lemma_sum_nd_take_le(grecs, i + 1);
            assert(grecs[i as int].1 == dict_records@[i as int].num_docs);
        }
        let nd = dict_records[i].num_docs;
        if nd > usize::MAX - expected_docs {
            proof {
                if hyp_eval {
                    assert(sum_nd(grecs.take(i + 1)) <= sum_nd(grecs));
                    assert(false);
                }
            }
            return Err(QueryError::Parse);
        }
        expected_docs = expected_docs + nd;
        i = i + 1;
    }
    proof {
        assert(grecs.take(nrec as int) =~= grecs);
        assert(expected_docs as int == sum_nd(grecs));
        if dict_records@.len() == 0 {
            assert(dict_recs_view(dict_records@) =~= Seq::<(Seq<char>, usize, usize)>::empty());
            assert(spec_all_posts(index.post@, sizes, dict_recs_view(dict_records@)) == Some(
                Seq::<(usize, usize)>::empty(),
            ));
        }
    }
    let post_records = match get_all_post_records(&index.post, &dict_records, &sizes) {
        Ok(v) => v,
        Err(e) => {
            return Err(e);
        },
    };
    let ghost ps = posts_view(post_records@);
    proof {
        assert(spec_all_posts(index.post@, sizes, grecs) == Some(ps));
        if hyp_eval {
            assert(ps == query_posts(index.dict@, index.post@, index.sizes@, toks));
        }
        if dict_records@.len() == 0 {
            assert(posts_view(post_records@).len() == 0);
            assert(post_records@.len() == 0);
        }
        if hyp_empty || hyp_missing {
            assert(post_records@.len() == 0);
            assert(forall|j: int|
                !(0 <= j < post_records@.len() && sum_weights(
                    post_records@.take(j + 1),
                    (#[trigger] post_records@[j]).doc_id,
                ) > usize::MAX));
            assert(expected_docs <= (usize::MAX - 3) / 8);
        }
        if hyp_eval {
            // no machine bound is hit: the record count and every running
            // accumulated weight stay within the evaluator's budget
            lemma_all_posts_len(index.post@, sizes, grecs);
            assert(ps.len() == sum_nd(grecs));
            assert(post_records@.len() == ps.len());
            assert(expected_docs <= (usize::MAX - 3) / 8);
            assert(post_records@.len() <= (usize::MAX - 3) / 8);
            assert forall|j: int|
                0 <= j < post_records@.len() implies sum_weights(
                post_records@.take(j + 1),
                (#[trigger] post_records@[j]).doc_id,
            ) <= usize::MAX by {
                lemma_sum_weights_view(
                    post_records@.take(j + 1),
                    post_records@[j].doc_id,
                );
                assert(posts_view(post_records@.take(j + 1)) =~= ps.take(j + 1));
                assert(ps[j].0 == post_records@[j].doc_id);
            }
        }
    }
    let query_ht = match make_query_ht(&post_records, expected_docs) {
        Ok(h) => h,
        Err(e) => {
            proof {
                if hyp_eval {
                    assert(false);
                }
            }
            return Err(e);
        },
    };
    proof {
        if post_records@.len() == 0 {
            assert(forall|k: Seq<char>| !query_ht.contents().contains_key(k));
        }
    }
    let sorted_results = get_sorted_results(query_ht, num_results);
    proof {
        if post_records@.len() == 0 {
            lemma_no_keys_no_cands(query_ht.slots(), query_ht, 0);
            assert(spec_cands(query_ht.slots(), 0) =~= Seq::<PostRecord>::empty());
            lemma_sort_desc_props(spec_cands(query_ht.slots(), 0));
            assert(sorted_results@.len() == 0);
        }
        lemma_sort_desc_props(spec_cands(query_ht.slots(), 0));
        assert(sorted_results@.len() <= num_results) by {
            let sorted = spec_sort_desc(spec_cands(query_ht.slots(), 0));
            if num_results < sorted.len() {
                assert(sorted_results@ == sorted.take(num_results as int));
            }
        }
    }
    proof {
        // the ranked weights are descending, and resolving names keeps them
        let sorted = spec_sort_desc(spec_cands(query_ht.slots(), 0));
        assert(sorted_desc(sorted));
        assert forall|i: int, j: int|
            0 <= i < j < sorted_results@.len() implies (
        #[trigger] sorted_results@[i]).weight >= (#[trigger] sorted_results@[j]).weight by {
            if num_results < sorted.len() {
                assert(sorted_results@[i] == sorted[i]);
                assert(sorted_results@[j] == sorted[j]);
            }
        }
    }
    let named = get_named_results(&index.map, &sorted_results, &sizes);
    proof {
        if hyp_eval {
            lemma_rows_witness(
                query_ht,
                post_records@,
                sorted_results@,
                named@,
                index.map@,
                sizes,
                num_results,
            );
            let wids = choose|ids: Seq<usize>|
                #[trigger] result_rows_match(
                    named@,
                    ids,
                    posts_view(post_records@),
                    index.map@,
                    sizes,
                    num_results,
                );
            assert(query_posts(index.dict@, index.post@, index.sizes@, toks) == ps);
            assert(result_rows_match(
                named@,
                wids,
                query_posts(
                    index.dict@,
                    index.post@,
                    index.sizes@,
                    spec_parse(vstd::utf8::encode_utf8(query@)),
                ),
                index.map@,
                spec_parse_sizes(index.sizes@)->Some_0,
                num_results,
            ));
            assert(query_answered(
                named@,
                index.dict@,
                index.post@,
                index.sizes@,
                index.map@,
                spec_parse(vstd::utf8::encode_utf8(query@)),
                num_results,
            ));
        }
    }
    Ok(named)
}

/// When every probe misses, no records are collected.
proof fn lemma_all_missing_empty(dict: Seq<u8>, sizes: FileSizes, toks: Seq<Seq<char>>)
    requires
        forall|j: int|
            0 <= j < toks.len() ==> spec_probe(dict, sizes, #[trigger] toks[j]) is Missing,
    ensures
        spec_dict_records(dict, sizes, toks) == Some(Seq::<(Seq<char>, usize, usize)>::empty()),
    decreases toks.len(),
{
    if toks.len() > 0 {
        assert(forall|j: int|
            0 <= j < toks.drop_last().len() ==> toks.drop_last()[j] == toks[j]);
        lemma_all_missing_empty(dict, sizes, toks.drop_last());
    }
}

/// A table with no keys has no occupied slots, hence no candidates.
proof fn lemma_no_keys_no_cands(
    s: Seq<Option<TableEntry<usize>>>,
    ht: HashTable<usize>,
    i: int,
)
    requires
        s == ht.slots(),
        forall|k: Seq<char>| !ht.contents().contains_key(k),
        0 <= i,
    ensures
        spec_cands(s, i) =~= Seq::<PostRecord>::empty(),
    decreases s.len() - i,
{
    if i < s.len() {
        if s[i] is Some {
            let k = crate::hashtable::slot_key(s[i]);
            assert(crate::hashtable::has_key(s, k)) by {
                assert(s[i] is Some && crate::hashtable::slot_key(s[i]) == k);
            }
            crate::hashtable::lemma_entries_map_domain(s, k);
            assert(crate::hashtable::entries_map(s).contains_key(k));
            assert(ht.contents() == crate::hashtable::entries_map(s));
            assert(false);
        }
        lemma_no_keys_no_cands(s, ht, i + 1);
        assert(spec_cands(s, i) =~= Seq::<PostRecord>::empty() + spec_cands(s, i + 1));
        assert(Seq::<PostRecord>::empty() + spec_cands(s, i + 1) =~= spec_cands(s, i + 1));
    }
}

// ----- parsing back written records -----
/// Trimming undoes padding for fields that fit their column and carry no
/// whitespace at either edge (interior whitespace is untouched).
pub proof fn lemma_pad_trim(s: Seq<u8>, w: nat)
    requires
        s.len() <= w,
        s.len() == 0 || (!crate::decimal::is_ws(s[0]) && !crate::decimal::is_ws(
            s[s.len() - 1],
        )),
    ensures
        spec_trim(spec_pad(s, w)) == s,
{
    let p = spec_pad(s, w);
    assert(p =~= s + Seq::new((w - s.len()) as nat, |i: int| crate::decimal::SPACE));
    lemma_trim_right_spaces(s, (w - s.len()) as nat);
    lemma_trim_left_id(s);
}

proof fn lemma_trim_right_spaces(s: Seq<u8>, k: nat)
    requires
        s.len() == 0 || !crate::decimal::is_ws(s[s.len() - 1]),
    ensures
        crate::decimal::spec_trim_right(
            s + Seq::new(k, |i: int| crate::decimal::SPACE),
        ) == s,
    decreases k,
{
    let sp = Seq::new(k, |i: int| crate::decimal::SPACE);
    if k == 0 {
        assert(s + sp =~= s);
        lemma_trim_right_id(s);
    } else {
        let u = s + sp;
        assert(u.len() == s.len() + k);
        assert(u.last() == crate::decimal::SPACE);
        assert(crate::decimal::is_ws(u.last()));
        assert(u.drop_last() =~= s + Seq::new((k - 1) as nat, |i: int| crate::decimal::SPACE));
        lemma_trim_right_spaces(s, (k - 1) as nat);
    }
}

proof fn lemma_trim_right_id(s: Seq<u8>)
    requires
        s.len() == 0 || !crate::decimal::is_ws(s[s.len() - 1]),
    ensures
        crate::decimal::spec_trim_right(s) == s,
{
    if s.len() > 0 {
        assert(!crate::decimal::is_ws(s.last()));
    }
}

proof fn lemma_trim_left_id(s: Seq<u8>)
    requires
        s.len() == 0 || !crate::decimal::is_ws(s[0]),
    ensures
        crate::decimal::spec_trim_left(s) == s,
{
}

/// In an all-empty table's dictionary, every slot parses back as the
/// `!NULL` sentinel with zero fields.
pub proof fn lemma_null_dict_slot(
    s: Seq<Option<TableEntry<crate::data_models::GlobHTBucket>>>,
    sizes: FileSizes,
    h: int,
    b: Seq<u8>,
)
    requires
        forall|q: int| 0 <= q < s.len() ==> !(#[trigger] s[q] is Some),
        0 <= h < s.len(),
        b == crate::write_query_files::spec_dict_from(s, sizes, 0, 0),
        sizes.num_docs_length >= 1,
        sizes.post_line_start_length >= 1,
    ensures
        spec_dict_slot(b, sizes, h) matches Some(rec) && rec.0
            =~= crate::write_query_files::null_term() && rec.1 == 0 && rec.2 == 0,
{
    let rec_size = spec_dict_rec_size(sizes);
    let line = crate::write_query_files::spec_dict_line(
        crate::write_query_files::null_term(),
        0,
        0,
        sizes,
    );
    crate::write_query_files::lemma_dict_line_len(
        crate::write_query_files::null_term(),
        0,
        0,
        sizes,
    );
    crate::write_query_files::lemma_dict_from_len(s, sizes, 0, 0);
    lemma_null_dict_line_at(s, sizes, 0, h, b);
    let off = h * rec_size;
    proof_mul_facts(h, rec_size, s.len() as int);
    assert(0 <= off && off + rec_size <= b.len());
    assert((h - 0) * rec_size == off);
    assert((h - 0 + 1) * rec_size == off + rec_size);
    assert(b.subrange(off, off + rec_size) == line);
    // the term column holds the padded sentinel
    assert(b.subrange(off, off + crate::constants::TERM_LENGTH as int) =~= spec_pad(
        crate::write_query_files::null_term(),
        crate::constants::TERM_LENGTH as nat,
    )) by {
        assert(forall|q: int|
            0 <= q < crate::constants::TERM_LENGTH ==> b.subrange(
                off,
                off + crate::constants::TERM_LENGTH as int,
            )[q] == #[trigger] line[q]);
    }
    lemma_pad_trim(
        crate::write_query_files::null_term(),
        crate::constants::TERM_LENGTH as nat,
    );
    // both numeric columns hold the padded zero
    let zero = spec_decimal(0);
    crate::decimal::lemma_decimal_digits(0);
    let nd_from = off + crate::constants::TERM_LENGTH + 1;
    assert(b.subrange(nd_from, nd_from + sizes.num_docs_length) =~= spec_pad(
        zero,
        sizes.num_docs_length as nat,
    )) by {
        assert(forall|q: int|
            0 <= q < sizes.num_docs_length ==> b.subrange(
                nd_from,
                nd_from + sizes.num_docs_length,
            )[q] == #[trigger] line[q + crate::constants::TERM_LENGTH + 1]);
        assert(forall|q: int|
            0 <= q < sizes.num_docs_length ==> #[trigger] spec_pad(
                zero,
                sizes.num_docs_length as nat,
            )[q] == line[q + crate::constants::TERM_LENGTH + 1]);
    }
    let st_from = off + crate::constants::TERM_LENGTH + 2 + sizes.num_docs_length;
    assert(b.subrange(st_from, st_from + sizes.post_line_start_length) =~= spec_pad(
        zero,
        sizes.post_line_start_length as nat,
    )) by {
        assert(forall|q: int|
            0 <= q < sizes.post_line_start_length ==> b.subrange(
                st_from,
                st_from + sizes.post_line_start_length,
            )[q] == #[trigger] line[q + crate::constants::TERM_LENGTH + 2
                + sizes.num_docs_length]);
        assert(forall|q: int|
            0 <= q < sizes.post_line_start_length ==> #[trigger] spec_pad(
                zero,
                sizes.post_line_start_length as nat,
            )[q] == line[q + crate::constants::TERM_LENGTH + 2 + sizes.num_docs_length]);
    }
    assert(forall|i: int| 0 <= i < zero.len() ==> !crate::decimal::is_ws(#[trigger] zero[i]));
    lemma_pad_trim(zero, sizes.num_docs_length as nat);
    lemma_pad_trim(zero, sizes.post_line_start_length as nat);
    crate::decimal::lemma_decimal_value(0);
    assert(spec_num_field(b, nd_from, nd_from + sizes.num_docs_length) == Some(0usize));
    assert(spec_num_field(b, st_from, st_from + sizes.post_line_start_length) == Some(0usize));
}

/// The dictionary of an all-empty table is the same `!NULL` line at every
/// slot.
proof fn lemma_null_dict_line_at(
    s: Seq<Option<TableEntry<crate::data_models::GlobHTBucket>>>,
    sizes: FileSizes,
    i: int,
    h: int,
    b: Seq<u8>,
)
    requires
        forall|q: int| 0 <= q < s.len() ==> !(#[trigger] s[q] is Some),
        0 <= i <= h < s.len(),
        b == crate::write_query_files::spec_dict_from(s, sizes, i, 0),
    ensures
        b.subrange(
            (h - i) * spec_dict_rec_size(sizes),
            (h - i + 1) * spec_dict_rec_size(sizes),
        ) == crate::write_query_files::spec_dict_line(
            crate::write_query_files::null_term(),
            0,
            0,
            sizes,
        ),
    decreases h - i,
{
    let rec_size = spec_dict_rec_size(sizes);
    let line = crate::write_query_files::spec_dict_line(
        crate::write_query_files::null_term(),
        0,
        0,
        sizes,
    );
    crate::write_query_files::lemma_dict_line_len(
        crate::write_query_files::null_term(),
        0,
        0,
        sizes,
    );
    crate::write_query_files::lemma_dict_from_len(s, sizes, i + 1, 0);
    let rest = crate::write_query_files::spec_dict_from(s, sizes, i + 1, 0);
    assert(b == line + rest);
    if i == h {
        vstd::arithmetic::mul::lemma_mul_basics_1(rec_size);
        vstd::arithmetic::mul::lemma_mul_basics_4(rec_size);
        assert(b.subrange(0, rec_size) =~= line);
    } else {
        lemma_null_dict_line_at(s, sizes, i + 1, h, rest);
        let a1 = (h - i - 1) * rec_size;
        let a2 = (h - i) * rec_size;
        let a3 = (h - i + 1) * rec_size;
        assert(a2 == a1 + rec_size) by {
            vstd::arithmetic::mul::lemma_mul_is_distributive_sub_other_way(
                rec_size,
                h - i,
                1,
            );
        }
        assert(a3 == a2 + rec_size) by {
            vstd::arithmetic::mul::lemma_mul_is_distributive_sub_other_way(
                rec_size,
                h - i + 1,
                1,
            );
        }
        assert(a1 >= 0) by {
            vstd::arithmetic::mul::lemma_mul_inequality(0, h - i - 1, rec_size);
        }
        assert(a1 + rec_size <= rest.len()) by {
            vstd::arithmetic::mul::lemma_mul_inequality(h - i, s.len() - i - 1, rec_size);
        }
        assert(b.subrange(a2, a3) =~= rest.subrange(a1, a1 + rec_size));
    }
}

proof fn proof_mul_facts(h: int, rec_size: int, n: int)
    requires
        0 <= h < n,
        rec_size >= 0,
    ensures
        0 <= h * rec_size,
        (h + 1) * rec_size == h * rec_size + rec_size,
        (h + 1) * rec_size <= n * rec_size,
{
    vstd::arithmetic::mul::lemma_mul_inequality(0, h, rec_size);
    vstd::arithmetic::mul::lemma_mul_is_distributive_add_other_way(rec_size, h, 1);
    vstd::arithmetic::mul::lemma_mul_inequality(h + 1, n, rec_size);
}

// ----- laws -----
/// Looking a token up on a fixed index is deterministic: any two results
/// that the dictionary probe admits are the same.
pub proof fn lemma_lookup_deterministic(
    dict: Seq<u8>,
    sizes: FileSizes,
    token: Seq<char>,
    r1: ProbeOutcome,
    r2: ProbeOutcome,
)
    requires
        r1 == spec_probe(dict, sizes, token),
        r2 == spec_probe(dict, sizes, token),
    ensures
        r1 == r2,
{
}

/// Serializing a fixed table and document map is deterministic: the four
/// files are functions of the table's slots and the map records alone.
pub proof fn lemma_index_files_deterministic(
    s: Seq<Option<TableEntry<crate::data_models::GlobHTBucket>>>,
    maps: Seq<crate::data_models::MapRecord>,
    sizes: FileSizes,
    total: int,
    d1: Seq<u8>,
    d2: Seq<u8>,
    p1: Seq<u8>,
    p2: Seq<u8>,
    m1: Seq<u8>,
    m2: Seq<u8>,
)
    requires
        d1 == crate::write_query_files::spec_dict_from(s, sizes, 0, 0),
        d2 == crate::write_query_files::spec_dict_from(s, sizes, 0, 0),
        p1 == crate::write_query_files::spec_post_from(s, 0, total, sizes),
        p2 == crate::write_query_files::spec_post_from(s, 0, total, sizes),
        m1 == crate::write_query_files::spec_map_from(maps, 0, sizes),
        m2 == crate::write_query_files::spec_map_from(maps, 0, sizes),
    ensures
        d1 == d2,
        p1 == p2,
        m1 == m2,
{
}

/// Reading the document map back: the record written for `doc_id` parses to
/// its file name, for names that fit their column, are ASCII, and carry no
/// edge whitespace.
pub proof fn lemma_map_round_trip(
    maps: Seq<crate::data_models::MapRecord>,
    sizes: FileSizes,
    doc_id: int,
    b: Seq<u8>,
)
    requires
        b == crate::write_query_files::spec_map_from(maps, 0, sizes),
        0 <= doc_id < maps.len(),
        vstd::utf8::is_ascii_chars(maps[doc_id].file_name@),
        maps[doc_id].file_name@.len() <= sizes.map_name_length,
        maps[doc_id].file_name@.len() == 0 || (!crate::decimal::is_ws(
            vstd::utf8::encode_utf8(maps[doc_id].file_name@)[0],
        ) && !crate::decimal::is_ws(
            vstd::utf8::encode_utf8(maps[doc_id].file_name@)[maps[doc_id].file_name@.len()
                - 1],
        )),
    ensures
        spec_doc_name(b, sizes, doc_id) == vstd::utf8::encode_utf8(maps[doc_id].file_name@),
{
    let rec = sizes.map_name_length + 1;
    let name = vstd::utf8::encode_utf8(maps[doc_id].file_name@);
    vstd::utf8::is_ascii_chars_encode_utf8(maps[doc_id].file_name@);
    let line = crate::write_query_files::spec_map_line(name, sizes);
    crate::write_query_files::lemma_map_from_len(maps, 0, sizes);
    lemma_map_line_at(maps, sizes, 0, doc_id, b);
    let off = doc_id * rec;
    proof_mul_facts(doc_id, rec, maps.len() as int);
    assert((doc_id - 0) * rec == off);
    assert((doc_id - 0 + 1) * rec == off + rec);
    assert(b.subrange(off, off + rec) == line);
    assert(off + rec <= b.len());
    // the record is the padded name plus the newline; trimming recovers it
    assert(spec_trim(b.subrange(off, off + rec)) == name) by {
        assert(line =~= spec_pad(name, sizes.map_name_length as nat) + seq![
            crate::decimal::NEWLINE,
        ]);
        assert(line =~= name + Seq::new(
            (sizes.map_name_length - name.len()) as nat,
            |i: int| crate::decimal::SPACE,
        ) + seq![crate::decimal::NEWLINE]);
        lemma_trim_right_spaces_nl(name, (sizes.map_name_length - name.len()) as nat);
        lemma_trim_left_id(name);
    }
}

proof fn lemma_trim_right_spaces_nl(s: Seq<u8>, k: nat)
    requires
        s.len() == 0 || !crate::decimal::is_ws(s[s.len() - 1]),
    ensures
        crate::decimal::spec_trim_right(
            s + Seq::new(k, |i: int| crate::decimal::SPACE) + seq![crate::decimal::NEWLINE],
        ) == s,
{
    let u = s + Seq::new(k, |i: int| crate::decimal::SPACE) + seq![crate::decimal::NEWLINE];
    assert(u.last() == crate::decimal::NEWLINE);
    assert(crate::decimal::is_ws(u.last()));
    assert(u.drop_last() =~= s + Seq::new(k, |i: int| crate::decimal::SPACE));
    lemma_trim_right_spaces(s, k);
}

/// The map file holds each record's line at its own offset.
proof fn lemma_map_line_at(
    maps: Seq<crate::data_models::MapRecord>,
    sizes: FileSizes,
    i: int,
    h: int,
    b: Seq<u8>,
)
    requires
        0 <= i <= h < maps.len(),
        b == crate::write_query_files::spec_map_from(maps, i, sizes),
    ensures
        b.subrange(
            (h - i) * (sizes.map_name_length + 1),
            (h - i + 1) * (sizes.map_name_length + 1),
        ) == crate::write_query_files::spec_map_line(
            vstd::utf8::encode_utf8(maps[h].file_name@),
            sizes,
        ),
    decreases h - i,
{
    let rec = sizes.map_name_length + 1;
    let line = crate::write_query_files::spec_map_line(
        vstd::utf8::encode_utf8(maps[i].file_name@),
        sizes,
    );
    crate::write_query_files::lemma_map_from_len(maps, i + 1, sizes);
    let rest = crate::write_query_files::spec_map_from(maps, i + 1, sizes);
    assert(b == line + rest);
    if i == h {
        vstd::arithmetic::mul::lemma_mul_basics_1(rec as int);
        vstd::arithmetic::mul::lemma_mul_basics_4(rec as int);
        assert(b.subrange(0, rec as int) =~= line);
    } else {
        lemma_map_line_at(maps, sizes, i + 1, h, rest);
        let a1 = (h - i - 1) * rec;
        let a2 = (h - i) * rec;
        let a3 = (h - i + 1) * rec;
        assert(a2 == a1 + rec) by {
            vstd::arithmetic::mul::lemma_mul_is_distributive_sub_other_way(rec as int, h - i, 1);
        }
        assert(a3 == a2 + rec) by {
            vstd::arithmetic::mul::lemma_mul_is_distributive_sub_other_way(
                rec as int,
                h - i + 1,
                1,
            );
        }
        assert(a1 >= 0) by {
            vstd::arithmetic::mul::lemma_mul_inequality(0, h - i - 1, rec as int);
        }
        assert(a1 + rec <= rest.len()) by {
            vstd::arithmetic::mul::lemma_mul_inequality(h - i, maps.len() - i - 1, rec as int);
        }
        assert(b.subrange(a2, a3) =~= rest.subrange(a1, a1 + rec));
    }
}

/// The dictionary line of slot `h` as written: the bytes of the file from
/// slot `i` on, with `count` postings already assigned, hold slot `h`'s line
/// at its own offset, with the accumulated posting count of the slots
/// between.
proof fn lemma_dict_line_at_general(
    s: Seq<Option<TableEntry<crate::data_models::GlobHTBucket>>>,
    sizes: FileSizes,
    i: int,
    h: int,
    count: nat,
    b: Seq<u8>,
)
    requires
        0 <= i <= h < s.len(),
        b == crate::write_query_files::spec_dict_from(s, sizes, i, count),
    ensures
        b.subrange(
            (h - i) * spec_dict_rec_size(sizes),
            (h - i + 1) * spec_dict_rec_size(sizes),
        ) == (match s[h] {
            None => crate::write_query_files::spec_dict_line(
                crate::write_query_files::null_term(),
                0,
                0,
                sizes,
            ),
            Some(e) => {
                if crate::write_query_files::is_rare_bucket(e.value.files_view()) {
                    crate::write_query_files::spec_dict_line(
                        crate::write_query_files::deleted_term(),
                        0,
                        0,
                        sizes,
                    )
                } else {
                    crate::write_query_files::spec_dict_line(
                        vstd::utf8::encode_utf8(e.key@),
                        e.value.files_view().len() as nat,
                        (count + crate::write_query_files::spec_total_nonrare_prefix(s, h)
                            - crate::write_query_files::spec_total_nonrare_prefix(
                            s,
                            i,
                        )) as nat,
                        sizes,
                    )
                }
            },
        }),
    decreases h - i,
{
    let rec = spec_dict_rec_size(sizes);
    let line_i = (match s[i] {
        None => crate::write_query_files::spec_dict_line(
            crate::write_query_files::null_term(),
            0,
            0,
            sizes,
        ),
        Some(e) => {
            if crate::write_query_files::is_rare_bucket(e.value.files_view()) {
                crate::write_query_files::spec_dict_line(
                    crate::write_query_files::deleted_term(),
                    0,
                    0,
                    sizes,
                )
            } else {
                crate::write_query_files::spec_dict_line(
                    vstd::utf8::encode_utf8(e.key@),
                    e.value.files_view().len() as nat,
                    count,
                    sizes,
                )
            }
        },
    });
    let count2: nat = (match s[i] {
        Some(e) => if !crate::write_query_files::is_rare_bucket(e.value.files_view()) {
            (count + e.value.files_view().len()) as nat
        } else {
            count
        },
        None => count,
    });
    let rest = crate::write_query_files::spec_dict_from(s, sizes, i + 1, count2);
    assert(b == line_i + rest);
    assert(line_i.len() == rec) by {
        crate::write_query_files::lemma_dict_line_len(
            crate::write_query_files::null_term(),
            0,
            0,
            sizes,
        );
    }
    crate::write_query_files::lemma_dict_from_len(s, sizes, i + 1, count2);
    if i == h {
        vstd::arithmetic::mul::lemma_mul_basics_1(rec);
        vstd::arithmetic::mul::lemma_mul_basics_4(rec);
        assert(b.subrange(0, rec) =~= line_i);
        assert(crate::write_query_files::spec_total_nonrare_prefix(s, h)
            == crate::write_query_files::spec_total_nonrare_prefix(s, i));
    } else {
        lemma_dict_line_at_general(s, sizes, i + 1, h, count2, rest);
        assert(count2 == count + crate::write_query_files::spec_total_nonrare_prefix(s, i + 1)
            - crate::write_query_files::spec_total_nonrare_prefix(s, i));
        let a1 = (h - i - 1) * rec;
        let a2 = (h - i) * rec;
        let a3 = (h - i + 1) * rec;
        assert(a2 == a1 + rec) by {
            vstd::arithmetic::mul::lemma_mul_is_distributive_sub_other_way(rec, h - i, 1);
        }
        assert(a3 == a2 + rec) by {
            vstd::arithmetic::mul::lemma_mul_is_distributive_sub_other_way(rec, h - i + 1, 1);
        }
        assert(a1 >= 0) by {
            vstd::arithmetic::mul::lemma_mul_inequality(0, h - i - 1, rec);
        }
        assert(a1 + rec <= rest.len()) by {
            vstd::arithmetic::mul::lemma_mul_inequality(h - i, s.len() - i - 1, rec);
        }
        assert(b.subrange(a2, a3) =~= rest.subrange(a1, a1 + rec));
    }
}

/// Reading the dictionary back: the record written for a live term parses to
/// that term, its document count, and the accumulated posting start of the
/// slots before it — the start that locates its first posting line. Holds
/// for terms that fit the term column, are ASCII with no whitespace, and
/// whose numeric fields fit their columns.
pub proof fn lemma_dict_slot_round_trip(
    s: Seq<Option<TableEntry<crate::data_models::GlobHTBucket>>>,
    sizes: FileSizes,
    h: int,
    b: Seq<u8>,
)
    requires
        b == crate::write_query_files::spec_dict_from(s, sizes, 0, 0),
        0 <= h < s.len(),
        s[h] is Some,
        !crate::write_query_files::is_rare_bucket(s[h]->Some_0.value.files_view()),
        vstd::utf8::is_ascii_chars(s[h]->Some_0.key@),
        s[h]->Some_0.key@.len() <= crate::constants::TERM_LENGTH,
        forall|q: int|
            0 <= q < s[h]->Some_0.key@.len() ==> !crate::decimal::is_ws(
                vstd::utf8::encode_utf8(s[h]->Some_0.key@)[q],
            ),
        spec_decimal(s[h]->Some_0.value.files_view().len() as nat).len()
            <= sizes.num_docs_length,
        spec_decimal(
            crate::write_query_files::spec_total_nonrare_prefix(s, h) as nat,
        ).len() <= sizes.post_line_start_length,
        crate::write_query_files::spec_total_nonrare_prefix(s, h) <= usize::MAX,
        s[h]->Some_0.value.files_view().len() <= usize::MAX,
    ensures
        spec_dict_slot(b, sizes, h) == Some(
            (
                vstd::utf8::encode_utf8(s[h]->Some_0.key@),
                s[h]->Some_0.value.files_view().len() as usize,
                crate::write_query_files::spec_total_nonrare_prefix(s, h) as usize,
            ),
        ),
{
    let rec_size = spec_dict_rec_size(sizes);
    let e = s[h]->Some_0;
    let term = vstd::utf8::encode_utf8(e.key@);
    vstd::utf8::is_ascii_chars_encode_utf8(e.key@);
    let nd = e.value.files_view().len() as nat;
    let start = crate::write_query_files::spec_total_nonrare_prefix(s, h) as nat;
    let line = crate::write_query_files::spec_dict_line(term, nd, start, sizes);
    crate::write_query_files::lemma_dict_line_len(term, nd, start, sizes);
    crate::write_query_files::lemma_dict_from_len(s, sizes, 0, 0);
    lemma_dict_line_at_general(s, sizes, 0, h, 0, b);
    let off = h * rec_size;
    proof_mul_facts(h, rec_size, s.len() as int);
    assert((h - 0) * rec_size == off);
    assert((h - 0 + 1) * rec_size == off + rec_size);
    assert(b.subrange(off, off + rec_size) == line);
    assert(off + rec_size <= b.len());
    // the term column
    assert(b.subrange(off, off + crate::constants::TERM_LENGTH as int) =~= spec_pad(
        term,
        crate::constants::TERM_LENGTH as nat,
    )) by {
        assert(forall|q: int|
            0 <= q < crate::constants::TERM_LENGTH ==> b.subrange(
                off,
                off + crate::constants::TERM_LENGTH as int,
            )[q] == #[trigger] line[q]);
    }
    lemma_pad_trim(term, crate::constants::TERM_LENGTH as nat);
    // the numeric columns
    let nd_b = spec_decimal(nd);
    let st_b = spec_decimal(start);
    crate::decimal::lemma_decimal_digits(nd);
    crate::decimal::lemma_decimal_digits(start);
    crate::decimal::lemma_decimal_value(nd);
    crate::decimal::lemma_decimal_value(start);
    let nd_from = off + crate::constants::TERM_LENGTH + 1;
    assert(b.subrange(nd_from, nd_from + sizes.num_docs_length) =~= spec_pad(
        nd_b,
        sizes.num_docs_length as nat,
    )) by {
        assert(forall|q: int|
            0 <= q < sizes.num_docs_length ==> b.subrange(
                nd_from,
                nd_from + sizes.num_docs_length,
            )[q] == #[trigger] line[q + crate::constants::TERM_LENGTH + 1]);
        assert(forall|q: int|
            0 <= q < sizes.num_docs_length ==> #[trigger] spec_pad(
                nd_b,
                sizes.num_docs_length as nat,
            )[q] == line[q + crate::constants::TERM_LENGTH + 1]);
    }
    let st_from = off + crate::constants::TERM_LENGTH + 2 + sizes.num_docs_length;
    assert(b.subrange(st_from, st_from + sizes.post_line_start_length) =~= spec_pad(
        st_b,
        sizes.post_line_start_length as nat,
    )) by {
        assert(forall|q: int|
            0 <= q < sizes.post_line_start_length ==> b.subrange(
                st_from,
                st_from + sizes.post_line_start_length,
            )[q] == #[trigger] line[q + crate::constants::TERM_LENGTH + 2
                + sizes.num_docs_length]);
        assert(forall|q: int|
            0 <= q < sizes.post_line_start_length ==> #[trigger] spec_pad(
                st_b,
                sizes.post_line_start_length as nat,
            )[q] == line[q + crate::constants::TERM_LENGTH + 2 + sizes.num_docs_length]);
    }
    assert(forall|q: int| 0 <= q < nd_b.len() ==> !crate::decimal::is_ws(#[trigger] nd_b[q]));
    assert(forall|q: int| 0 <= q < st_b.len() ==> !crate::decimal::is_ws(#[trigger] st_b[q]));
    lemma_pad_trim(nd_b, sizes.num_docs_length as nat);
    lemma_pad_trim(st_b, sizes.post_line_start_length as nat);
    assert(spec_trim(b.subrange(nd_from, nd_from + sizes.num_docs_length)) == nd_b);
    assert(spec_trim(b.subrange(st_from, st_from + sizes.post_line_start_length)) == st_b);
    assert(spec_dec_value(nd_b) == nd);
    assert(spec_dec_value(st_b) == start);
    assert(nd <= usize::MAX);
    crate::write_query_files::lemma_nonrare_prefix_le_total(s, h);
    assert(start == crate::write_query_files::spec_total_nonrare_prefix(s, h));
    assert(start <= usize::MAX);
    assert(spec_num_field(b, nd_from, nd_from + sizes.num_docs_length) == Some(
        (nd as usize),
    ));
    assert(spec_num_field(b, st_from, st_from + sizes.post_line_start_length) == Some(
        (start as usize),
    ));
    assert(spec_trim(b.subrange(off, off + crate::constants::TERM_LENGTH as int)) == term);
    assert(spec_dict_slot(b, sizes, h) == Some((term, (nd as usize), (start as usize))));
}

/// Conditions under which the dictionary bytes faithfully mirror the table:
/// every stored key fits the term column, is ASCII without whitespace, and
/// never sentinel-shaped; and every live record's numbers fit their columns.
pub open spec fn dict_keys_ok(
    s: Seq<Option<TableEntry<crate::data_models::GlobHTBucket>>>,
    sizes: FileSizes,
) -> bool {
    forall|h: int|
        0 <= h < s.len() && #[trigger] s[h] is Some ==> {
            let key = s[h]->Some_0.key@;
            &&& vstd::utf8::is_ascii_chars(key)
            &&& key.len() >= 1
            &&& key.len() <= crate::constants::TERM_LENGTH
            &&& (forall|q: int|
                0 <= q < key.len() ==> !crate::decimal::is_ws(
                    vstd::utf8::encode_utf8(key)[q],
                ))
            &&& vstd::utf8::encode_utf8(key)[0] != 33
            &&& spec_decimal(s[h]->Some_0.value.files_view().len() as nat).len()
                <= sizes.num_docs_length
            &&& spec_decimal(
                crate::write_query_files::spec_total_nonrare_prefix(s, h) as nat,
            ).len() <= sizes.post_line_start_length
            &&& crate::write_query_files::spec_total_nonrare_prefix(s, h) <= usize::MAX
            &&& s[h]->Some_0.value.files_view().len() <= usize::MAX
        }
}

/// ASCII strings with equal byte encodings are equal.
proof fn lemma_ascii_encode_injective(a: Seq<char>, b: Seq<char>)
    requires
        vstd::utf8::is_ascii_chars(a),
        vstd::utf8::is_ascii_chars(b),
        vstd::utf8::encode_utf8(a) == vstd::utf8::encode_utf8(b),
    ensures
        a == b,
{
    vstd::utf8::is_ascii_chars_encode_utf8(a);
    vstd::utf8::is_ascii_chars_encode_utf8(b);
    assert(a.len() == b.len());
    assert forall|i: int| 0 <= i < a.len() implies a[i] == b[i] by {
        assert(vstd::utf8::encode_utf8(a)[i] == a[i] as u8);
        assert(vstd::utf8::encode_utf8(b)[i] == b[i] as u8);
        assert(a[i] as u8 == b[i] as u8);
        assert((a[i] as nat) < 128);
        assert((b[i] as nat) < 128);
    }
    assert(a =~= b);
}

/// The dictionary probe of the written bytes finds every live term: for a
/// stored, non-rare term, the probe returns its document count and the
/// posting line where its postings begin.
pub proof fn lemma_probe_finds_term(
    s: Seq<Option<TableEntry<crate::data_models::GlobHTBucket>>>,
    sizes: FileSizes,
    b: Seq<u8>,
    token: Seq<char>,
    slot: int,
)
    requires
        crate::hashtable::table_wf(s),
        dict_keys_ok(s, sizes),
        b == crate::write_query_files::spec_dict_from(s, sizes, 0, 0),
        sizes.num_dict_lines == s.len(),
        sizes.num_dict_lines >= 1,
        0 <= slot < s.len(),
        s[slot] is Some,
        s[slot]->Some_0.key@ == token,
        !crate::write_query_files::is_rare_bucket(s[slot]->Some_0.value.files_view()),
    ensures
        spec_probe(b, sizes, token) == ProbeOutcome::Found(
            (s[slot]->Some_0.value.files_view().len() as usize),
            (crate::write_query_files::spec_total_nonrare_prefix(s, slot) as usize),
        ),
{
    let n = s.len() as int;
    let k = crate::hashtable::slot_key(s[slot]);
    let h0 = spec_hash(k, n);
    assert(crate::hashtable::slot_reachable(s, slot));
    let j0 = choose|j: int|
        0 <= j && #[trigger] crate::hashtable::probe_at(spec_hash(k, n), j, n) == slot
            && crate::hashtable::path_blocked(s, k, j);
    crate::hashtable::lemma_witness_bounded(s, slot, j0);
    let j = choose|j2: int|
        0 <= j2 < s.len() && #[trigger] crate::hashtable::probe_at(spec_hash(k, n), j2, n)
            == slot && crate::hashtable::path_blocked(s, k, j2);
    vstd::arithmetic::div_mod::lemma_mod_bound(crate::hashtable::spec_hash_u28(k), n);
    vstd::arithmetic::div_mod::lemma_small_mod(h0 as nat, n as nat);
    assert(crate::hashtable::probe_at(h0, 0, n) == h0);
    lemma_probe_walk(s, sizes, b, token, j, 0);
}

/// Walking the probe: with the blocked prefix from step `i` to the stop
/// step `j`, the byte-level probe from the `i`-th slot reaches the term.
proof fn lemma_probe_walk(
    s: Seq<Option<TableEntry<crate::data_models::GlobHTBucket>>>,
    sizes: FileSizes,
    b: Seq<u8>,
    token: Seq<char>,
    j: int,
    i: int,
)
    requires
        crate::hashtable::table_wf(s),
        dict_keys_ok(s, sizes),
        b == crate::write_query_files::spec_dict_from(s, sizes, 0, 0),
        sizes.num_dict_lines == s.len(),
        sizes.num_dict_lines >= 1,
        0 <= i <= j < s.len(),
        ({
            let n = s.len() as int;
            let slot = crate::hashtable::probe_at(spec_hash(token, n), j, n);
            &&& 0 <= slot < s.len()
            &&& s[slot] is Some
            &&& s[slot]->Some_0.key@ == token
            &&& !crate::write_query_files::is_rare_bucket(s[slot]->Some_0.value.files_view())
            &&& crate::hashtable::path_blocked(s, token, j)
        }),
    ensures
        ({
            let n = s.len() as int;
            let slot = crate::hashtable::probe_at(spec_hash(token, n), j, n);
            spec_probe_from(
                b,
                sizes,
                vstd::utf8::encode_utf8(token),
                crate::hashtable::probe_at(spec_hash(token, n), i, n),
                n - i,
            ) == ProbeOutcome::Found(
                (s[slot]->Some_0.value.files_view().len() as usize),
                (crate::write_query_files::spec_total_nonrare_prefix(s, slot) as usize),
            )
        }),
    decreases j - i,
{
    let n = s.len() as int;
    let h0 = spec_hash(token, n);
    let slot = crate::hashtable::probe_at(h0, j, n);
    let here = crate::hashtable::probe_at(h0, i, n);
    vstd::arithmetic::div_mod::lemma_mod_bound(h0 + 3 * i, n);
    let tokenb = vstd::utf8::encode_utf8(token);
    assert(vstd::utf8::is_ascii_chars(token) && tokenb[0] != 33 && token.len() >= 1) by {
        assert(s[slot] is Some);
    }
    if i == j {
        // the probe stands on the term's own slot
        lemma_dict_slot_round_trip(s, sizes, slot, b);
        assert(spec_dict_slot(b, sizes, slot) == Some(
            (
                tokenb,
                (s[slot]->Some_0.value.files_view().len() as usize),
                (crate::write_query_files::spec_total_nonrare_prefix(s, slot) as usize),
            ),
        ));
        assert(!(tokenb =~= crate::write_query_files::null_term())) by {
            assert(crate::write_query_files::null_term()[0] == 33);
        }
        assert(n - i >= 1);
    } else {
        // a blocked slot holds some other live or rare term, never `!NULL`
        assert(s[here] is Some && crate::hashtable::slot_key(s[here]) != token) by {
            assert(crate::hashtable::path_blocked(s, token, j));
        }
        let okey = s[here]->Some_0.key@;
        let oterm = if crate::write_query_files::is_rare_bucket(
            s[here]->Some_0.value.files_view(),
        ) {
            crate::write_query_files::deleted_term()
        } else {
            vstd::utf8::encode_utf8(okey)
        };
        lemma_dict_slot_other(s, sizes, here, b);
        assert(spec_dict_slot(b, sizes, here) matches Some(rec) && rec.0 == oterm);
        assert(!(oterm =~= crate::write_query_files::null_term())) by {
            if crate::write_query_files::is_rare_bucket(s[here]->Some_0.value.files_view()) {
                assert(crate::write_query_files::deleted_term().len() == 8);
                assert(crate::write_query_files::null_term().len() == 5);
            } else {
                assert(vstd::utf8::encode_utf8(okey)[0] != 33);
                assert(crate::write_query_files::null_term()[0] == 33);
                vstd::utf8::is_ascii_chars_encode_utf8(okey);
                if vstd::utf8::encode_utf8(okey) =~= crate::write_query_files::null_term() {
                    assert(vstd::utf8::encode_utf8(okey)[0] == 33);
                }
            }
        }
        assert(!(oterm =~= tokenb)) by {
            if crate::write_query_files::is_rare_bucket(s[here]->Some_0.value.files_view()) {
                assert(crate::write_query_files::deleted_term()[0] == 33);
                if crate::write_query_files::deleted_term() =~= tokenb {
                    assert(tokenb[0] == 33);
                }
            } else {
                if vstd::utf8::encode_utf8(okey) =~= tokenb {
                    lemma_ascii_encode_injective(okey, token);
                }
            }
        }
        assert(crate::hashtable::probe_at(h0, i + 1, n) == (here + 3) % n) by {
            vstd::arithmetic::div_mod::lemma_add_mod_noop(here, 3, n);
            vstd::arithmetic::div_mod::lemma_small_mod(here as nat, n as nat);
            vstd::arithmetic::div_mod::lemma_add_mod_noop(h0 + 3 * i, 3, n);
            assert(h0 + 3 * (i + 1) == h0 + 3 * i + 3);
            assert((h0 + 3 * i) % n == here);
        }
        lemma_probe_walk(s, sizes, b, token, j, i + 1);
        assert(spec_probe_from(b, sizes, tokenb, here, n - i) == spec_probe_from(
            b,
            sizes,
            tokenb,
            (here + 3) % (sizes.num_dict_lines as int),
            n - i - 1,
        ));
    }
}

/// Any occupied slot's record parses back: its term column holds either the
/// tombstone or the stored key's bytes.
proof fn lemma_dict_slot_other(
    s: Seq<Option<TableEntry<crate::data_models::GlobHTBucket>>>,
    sizes: FileSizes,
    h: int,
    b: Seq<u8>,
)
    requires
        dict_keys_ok(s, sizes),
        b == crate::write_query_files::spec_dict_from(s, sizes, 0, 0),
        0 <= h < s.len(),
        s[h] is Some,
    ensures
        spec_dict_slot(b, sizes, h) matches Some(rec) && rec.0 == (
        if crate::write_query_files::is_rare_bucket(s[h]->Some_0.value.files_view()) {
            crate::write_query_files::deleted_term()
        } else {
            vstd::utf8::encode_utf8(s[h]->Some_0.key@)
        }),
{
    if crate::write_query_files::is_rare_bucket(s[h]->Some_0.value.files_view()) {
        lemma_deleted_dict_slot(s, sizes, h, b);
    } else {
        lemma_dict_slot_round_trip(s, sizes, h, b);
    }
}

/// A rare term — one document, one occurrence — is emitted as the
/// `!DELETED` tombstone: its written record parses back as the tombstone
/// with zero fields, and contributes no posting.
pub proof fn lemma_deleted_dict_slot(
    s: Seq<Option<TableEntry<crate::data_models::GlobHTBucket>>>,
    sizes: FileSizes,
    h: int,
    b: Seq<u8>,
)
    requires
        dict_keys_ok(s, sizes),
        b == crate::write_query_files::spec_dict_from(s, sizes, 0, 0),
        0 <= h < s.len(),
        s[h] is Some,
        crate::write_query_files::is_rare_bucket(s[h]->Some_0.value.files_view()),
    ensures
        spec_dict_slot(b, sizes, h) == Some(
            (crate::write_query_files::deleted_term(), 0usize, 0usize),
        ),
{
    let rec_size = spec_dict_rec_size(sizes);
    let term = crate::write_query_files::deleted_term();
    let line = crate::write_query_files::spec_dict_line(term, 0, 0, sizes);
    crate::write_query_files::lemma_dict_line_len(term, 0, 0, sizes);
    crate::write_query_files::lemma_dict_from_len(s, sizes, 0, 0);
    lemma_dict_line_at_general(s, sizes, 0, h, 0, b);
    let off = h * rec_size;
    proof_mul_facts(h, rec_size, s.len() as int);
    assert((h - 0) * rec_size == off);
    assert((h - 0 + 1) * rec_size == off + rec_size);
    assert(b.subrange(off, off + rec_size) == line);
    assert(b.subrange(off, off + crate::constants::TERM_LENGTH as int) =~= spec_pad(
        term,
        crate::constants::TERM_LENGTH as nat,
    )) by {
        assert(forall|q: int|
            0 <= q < crate::constants::TERM_LENGTH ==> b.subrange(
                off,
                off + crate::constants::TERM_LENGTH as int,
            )[q] == #[trigger] line[q]);
    }
    lemma_pad_trim(term, crate::constants::TERM_LENGTH as nat);
    let zero = spec_decimal(0);
    crate::decimal::lemma_decimal_digits(0);
    crate::decimal::lemma_decimal_value(0);
    let nd_from = off + crate::constants::TERM_LENGTH + 1;
    assert(b.subrange(nd_from, nd_from + sizes.num_docs_length) =~= spec_pad(
        zero,
        sizes.num_docs_length as nat,
    )) by {
        assert(forall|q: int|
            0 <= q < sizes.num_docs_length ==> b.subrange(
                nd_from,
                nd_from + sizes.num_docs_length,
            )[q] == #[trigger] line[q + crate::constants::TERM_LENGTH + 1]);
        assert(forall|q: int|
            0 <= q < sizes.num_docs_length ==> #[trigger] spec_pad(
                zero,
                sizes.num_docs_length as nat,
            )[q] == line[q + crate::constants::TERM_LENGTH + 1]);
    }
    let st_from = off + crate::constants::TERM_LENGTH + 2 + sizes.num_docs_length;
    assert(b.subrange(st_from, st_from + sizes.post_line_start_length) =~= spec_pad(
        zero,
        sizes.post_line_start_length as nat,
    )) by {
        assert(forall|q: int|
            0 <= q < sizes.post_line_start_length ==> b.subrange(
                st_from,
                st_from + sizes.post_line_start_length,
            )[q] == #[trigger] line[q + crate::constants::TERM_LENGTH + 2
                + sizes.num_docs_length]);
        assert(forall|q: int|
            0 <= q < sizes.post_line_start_length ==> #[trigger] spec_pad(
                zero,
                sizes.post_line_start_length as nat,
            )[q] == line[q + crate::constants::TERM_LENGTH + 2 + sizes.num_docs_length]);
    }
    assert(forall|q: int| 0 <= q < zero.len() ==> !crate::decimal::is_ws(#[trigger] zero[q]));
    assert(forall|q: int| 0 <= q < term.len() ==> !crate::decimal::is_ws(#[trigger] term[q]));
    lemma_pad_trim(zero, sizes.num_docs_length as nat);
    lemma_pad_trim(zero, sizes.post_line_start_length as nat);
    assert(sizes.num_docs_length >= 1 && sizes.post_line_start_length >= 1) by {
        crate::decimal::lemma_decimal_digits(
            s[h]->Some_0.value.files_view().len() as nat,
        );
        crate::decimal::lemma_decimal_digits(
            crate::write_query_files::spec_total_nonrare_prefix(s, h) as nat,
        );
    }
    assert(spec_num_field(b, nd_from, nd_from + sizes.num_docs_length) == Some(0usize));
    assert(spec_num_field(b, st_from, st_from + sizes.post_line_start_length) == Some(0usize));
    assert(spec_trim(b.subrange(off, off + crate::constants::TERM_LENGTH as int)) == term);
}

// ----- the query evaluator's end-to-end specification -----
/// The total document count of a record list.
pub open spec fn sum_nd(recs: Seq<(Seq<char>, usize, usize)>) -> int
    decreases recs.len(),
{
    if recs.len() == 0 {
        0
    } else {
        sum_nd(recs.drop_last()) + recs.last().1
    }
}

/// The accumulated weight of document `id` over id/weight pairs.
pub open spec fn sum_weights_p(ps: Seq<(usize, usize)>, id: usize) -> int
    decreases ps.len(),
{
    if ps.len() == 0 {
        0
    } else {
        sum_weights_p(ps.drop_last(), id) + if ps.last().0 == id {
            ps.last().1 as int
        } else {
            0int
        }
    }
}

/// Whether some posting names document `id`.
pub open spec fn posts_contain_id(ps: Seq<(usize, usize)>, id: usize) -> bool {
    exists|j: int| 0 <= j < ps.len() && (#[trigger] ps[j]).0 == id
}

/// A query is evaluable: the sizes parse and are usable, every probe and
/// posting read succeeds, and no machine bound is hit.
pub open spec fn evaluable(
    dictb: Seq<u8>,
    postb: Seq<u8>,
    sizesb: Seq<u8>,
    toks: Seq<Seq<char>>,
) -> bool {
    match spec_parse_sizes(sizesb) {
        None => false,
        Some(s) => sizes_ok(s) && match spec_dict_records(dictb, s, toks) {
            None => false,
            Some(recs) => match spec_all_posts(postb, s, recs) {
                None => false,
                Some(ps) => sum_nd(recs) <= (usize::MAX - 3) / 8 && (forall|j: int|
                    0 <= j < ps.len() ==> sum_weights_p(
                        ps.take(j + 1),
                        (#[trigger] ps[j]).0,
                    ) <= usize::MAX),
            },
        },
    }
}

/// The postings an evaluable query accumulates (empty otherwise).
pub open spec fn query_posts(
    dictb: Seq<u8>,
    postb: Seq<u8>,
    sizesb: Seq<u8>,
    toks: Seq<Seq<char>>,
) -> Seq<(usize, usize)> {
    match spec_parse_sizes(sizesb) {
        None => Seq::empty(),
        Some(s) => match spec_dict_records(dictb, s, toks) {
            None => Seq::empty(),
            Some(recs) => match spec_all_posts(postb, s, recs) {
                None => Seq::empty(),
                Some(ps) => ps,
            },
        },
    }
}

/// The ranked rows answer the accumulated postings: row `i` is document
/// `ids[i]`, present in the postings, with its accumulated weight and its
/// map-file name; documents are not repeated; either the result is full or
/// every accumulated document is ranked; and every unranked document weighs
/// no more than the last ranked row.
pub open spec fn result_rows_match(
    res: Seq<NamedResult>,
    ids: Seq<usize>,
    ps: Seq<(usize, usize)>,
    mapb: Seq<u8>,
    s: FileSizes,
    k: usize,
) -> bool {
    &&& ids.len() == res.len()
    &&& (forall|i: int| 0 <= i < res.len() ==> posts_contain_id(ps, #[trigger] ids[i]))
    &&& (forall|i: int|
        0 <= i < res.len() ==> (#[trigger] res[i]).weight as int == sum_weights_p(ps, ids[i]))
    &&& (forall|i: int|
        0 <= i < res.len() ==> (ascii_bytes(spec_doc_name(mapb, s, #[trigger] ids[i] as int))
            ==> res[i].name@ == bytes_to_chars(spec_doc_name(mapb, s, ids[i] as int))))
    &&& (forall|i1: int, i2: int|
        0 <= i1 < i2 < ids.len() ==> #[trigger] ids[i1] != #[trigger] ids[i2])
    &&& (res.len() == k || (forall|id: usize|
        posts_contain_id(ps, id) ==> #[trigger] ids.contains(id)))
    &&& (forall|id: usize|
        posts_contain_id(ps, id) && !ids.contains(id) && res.len() > 0 ==> #[trigger] sum_weights_p(
            ps,
            id,
        ) <= res[res.len() - 1].weight)
}

/// The rows answer the query: some id assignment satisfies
/// `result_rows_match` against the accumulated postings.
pub open spec fn query_answered(
    res: Seq<NamedResult>,
    dictb: Seq<u8>,
    postb: Seq<u8>,
    sizesb: Seq<u8>,
    mapb: Seq<u8>,
    toks: Seq<Seq<char>>,
    k: usize,
) -> bool {
    exists|ids: Seq<usize>|
        #[trigger] result_rows_match(
            res,
            ids,
            query_posts(dictb, postb, sizesb, toks),
            mapb,
            spec_parse_sizes(sizesb)->Some_0,
            k,
        )
}

/// The pair view of accumulated weights matches the record view.
proof fn lemma_sum_weights_view(v: Seq<PostRecord>, id: usize)
    ensures
        sum_weights(v, id) == sum_weights_p(posts_view(v), id),
    decreases v.len(),
{
    if v.len() > 0 {
        lemma_sum_weights_view(v.drop_last(), id);
        assert(posts_view(v).drop_last() =~= posts_view(v.drop_last()));
        assert(posts_view(v).last() == (v.last().doc_id, v.last().weight));
    }
}

/// A readable posting range has exactly its record count.
proof fn lemma_term_posts_len(b: Seq<u8>, sizes: FileSizes, start: int, cnt: nat)
    ensures
        spec_term_posts(b, sizes, start, cnt) matches Some(x) ==> x.len() == cnt,
    decreases cnt,
{
    if cnt > 0 {
        lemma_term_posts_len(b, sizes, start + 1, (cnt - 1) as nat);
    }
}

/// All readable postings of a record list count to the records' documents.
proof fn lemma_all_posts_len(b: Seq<u8>, sizes: FileSizes, recs: Seq<(Seq<char>, usize, usize)>)
    ensures
        spec_all_posts(b, sizes, recs) matches Some(ps) ==> ps.len() == sum_nd(recs),
        sum_nd(recs) >= 0,
    decreases recs.len(),
{
    if recs.len() > 0 {
        lemma_all_posts_len(b, sizes, recs.drop_last());
        lemma_term_posts_len(b, sizes, recs.last().2 as int, recs.last().1 as nat);
    }
}

proof fn lemma_sum_nd_take_step(recs: Seq<(Seq<char>, usize, usize)>, i: int)
    requires
        0 <= i < recs.len(),
    ensures
        sum_nd(recs.take(i + 1)) == sum_nd(recs.take(i)) + recs[i].1,
{
    assert(recs.take(i + 1).drop_last() =~= recs.take(i));
    assert(recs.take(i + 1).last() == recs[i]);
}

proof fn lemma_sum_nd_take_le(recs: Seq<(Seq<char>, usize, usize)>, i: int)
    requires
        0 <= i <= recs.len(),
    ensures
        sum_nd(recs.take(i)) <= sum_nd(recs),
        sum_nd(recs.take(i)) >= 0,
    decreases recs.len() - i,
{
    lemma_sum_nd_nonneg(recs.take(i));
    if i < recs.len() {
        lemma_sum_nd_take_step(recs, i);
        lemma_sum_nd_take_le(recs, i + 1);
    } else {
        assert(recs.take(i) =~= recs);
    }
}

proof fn lemma_sum_nd_nonneg(recs: Seq<(Seq<char>, usize, usize)>)
    ensures
        sum_nd(recs) >= 0,
    decreases recs.len(),
{
    if recs.len() > 0 {
        lemma_sum_nd_nonneg(recs.drop_last());
    }
}

/// The candidate a slot contributes.
pub open spec fn cand_of(s: Seq<Option<TableEntry<usize>>>, t: int) -> PostRecord {
    PostRecord {
        doc_id: key_value(crate::hashtable::slot_key(s[t])) as usize,
        weight: s[t]->Some_0.value,
    }
}

/// Every candidate comes from one occupied slot.
proof fn lemma_cands_elem(s: Seq<Option<TableEntry<usize>>>, i: int, q: int)
    requires
        0 <= i,
        0 <= q < spec_cands(s, i).len(),
    ensures
        exists|t: int|
            i <= t < s.len() && s[t] is Some && #[trigger] cand_of(s, t) == spec_cands(s, i)[q],
    decreases s.len() - i,
{
    let rest = spec_cands(s, i + 1);
    match s[i] {
        Some(e) => {
            if q == 0 {
                assert(spec_cands(s, i)[0] == cand_of(s, i));
                assert(i <= i < s.len() && s[i] is Some && cand_of(s, i) == spec_cands(s, i)[q]);
            } else {
                lemma_cands_elem(s, i + 1, q - 1);
                let t = choose|t: int|
                    i + 1 <= t < s.len() && s[t] is Some && #[trigger] cand_of(s, t) == rest[q
                        - 1];
                assert(spec_cands(s, i)[q] == rest[q - 1]);
                assert(i <= t < s.len() && s[t] is Some && cand_of(s, t) == spec_cands(s, i)[q]);
            }
        },
        None => {
            assert(spec_cands(s, i) =~= rest);
            lemma_cands_elem(s, i + 1, q);
            let t = choose|t: int|
                i + 1 <= t < s.len() && s[t] is Some && #[trigger] cand_of(s, t) == rest[q];
            assert(i <= t < s.len() && s[t] is Some && cand_of(s, t) == spec_cands(s, i)[q]);
        },
    }
}

/// Candidates are pairwise distinct when distinct occupied slots carry
/// distinct numeric keys.
proof fn lemma_cands_no_dup(s: Seq<Option<TableEntry<usize>>>)
    requires
        forall|t1: int, t2: int|
            0 <= t1 < s.len() && 0 <= t2 < s.len() && #[trigger] s[t1] is Some
                && #[trigger] s[t2] is Some && t1 != t2 ==> cand_of(s, t1).doc_id != cand_of(
                s,
                t2,
            ).doc_id,
    ensures
        spec_cands(s, 0).no_duplicates(),
{
    let cands = spec_cands(s, 0);
    assert forall|q1: int, q2: int| 0 <= q1 < q2 < cands.len() implies cands[q1]
        != cands[q2] by {
        lemma_cands_elem(s, 0, q1);
        lemma_cands_elem(s, 0, q2);
        let t1 = choose|t: int|
            0 <= t < s.len() && s[t] is Some && #[trigger] cand_of(s, t) == cands[q1];
        let t2 = choose|t: int|
            0 <= t < s.len() && s[t] is Some && #[trigger] cand_of(s, t) == cands[q2];
        if t1 == t2 {
            // the same slot cannot appear at two candidate positions
            lemma_cands_slot_once(s, 0, t1, q1, q2);
        } else {
            assert(cand_of(s, t1).doc_id != cand_of(s, t2).doc_id);
        }
    }
}

/// Each slot contributes at most one candidate position.
proof fn lemma_cands_slot_once(s: Seq<Option<TableEntry<usize>>>, i: int, t: int, q1: int, q2: int)
    requires
        0 <= i,
        0 <= q1 < q2 < spec_cands(s, i).len(),
    ensures
        !(cand_of(s, t) == spec_cands(s, i)[q1] && cand_of(s, t) == spec_cands(s, i)[q2]
            && (forall|t2: int|
            0 <= t2 < s.len() && #[trigger] s[t2] is Some && t2 != t ==> cand_of(s, t2).doc_id
                != cand_of(s, t).doc_id) && 0 <= t < s.len() && s[t] is Some),
    decreases s.len() - i,
{
    if cand_of(s, t) == spec_cands(s, i)[q1] && cand_of(s, t) == spec_cands(s, i)[q2] && (
    forall|t2: int|
        0 <= t2 < s.len() && #[trigger] s[t2] is Some && t2 != t ==> cand_of(s, t2).doc_id
            != cand_of(s, t).doc_id) && 0 <= t < s.len() && s[t] is Some {
        let rest = spec_cands(s, i + 1);
        match s[i] {
            Some(e) => {
                if q1 == 0 {
                    // position 0 is slot i's candidate, so t == i; position q2
                    // lies in the tail, whose slots all differ from i
                    assert(spec_cands(s, i)[q1] == cand_of(s, i));
                    lemma_cands_elem(s, i + 1, q2 - 1);
                    let t2 = choose|tx: int|
                        i + 1 <= tx < s.len() && s[tx] is Some && #[trigger] cand_of(s, tx)
                            == rest[q2 - 1];
                    assert(spec_cands(s, i)[q2] == rest[q2 - 1]);
                    if t2 == t {
                        assert(t >= i + 1 && cand_of(s, i) == cand_of(s, t));
                        assert(cand_of(s, i).doc_id != cand_of(s, t).doc_id);
                    } else {
                        assert(cand_of(s, t2).doc_id != cand_of(s, t).doc_id);
                    }
                } else {
                    assert(spec_cands(s, i)[q1] == rest[q1 - 1]);
                    assert(spec_cands(s, i)[q2] == rest[q2 - 1]);
                    lemma_cands_slot_once(s, i + 1, t, q1 - 1, q2 - 1);
                }
            },
            None => {
                assert(spec_cands(s, i) =~= rest);
                lemma_cands_slot_once(s, i + 1, t, q1, q2);
            },
        }
    }
}

/// Every occupied slot's candidate is among the candidates.
proof fn lemma_cands_contains_slot(s: Seq<Option<TableEntry<usize>>>, i: int, t: int)
    requires
        0 <= i <= t < s.len(),
        s[t] is Some,
    ensures
        spec_cands(s, i).contains(cand_of(s, t)),
    decreases t - i,
{
    let rest = spec_cands(s, i + 1);
    if i == t {
        assert(spec_cands(s, i)[0] == cand_of(s, t));
    } else {
        lemma_cands_contains_slot(s, i + 1, t);
        let q = choose|q: int| 0 <= q < rest.len() && rest[q] == cand_of(s, t);
        match s[i] {
            Some(e) => {
                assert(spec_cands(s, i)[q + 1] == cand_of(s, t));
            },
            None => {
                assert(spec_cands(s, i) =~= rest);
            },
        }
    }
}

// ----- parsing back written postings -----
/// The non-rare postings after slot `i` are the whole file's minus the
/// running prefix.
proof fn lemma_prefix_nonrare_rel(
    s: Seq<Option<TableEntry<crate::data_models::GlobHTBucket>>>,
    i: int,
)
    requires
        0 <= i <= s.len(),
    ensures
        crate::write_query_files::spec_nonrare_postings(s, i)
            == crate::write_query_files::spec_total_nonrare_prefix(s, s.len() as int)
            - crate::write_query_files::spec_total_nonrare_prefix(s, i),
    decreases s.len() - i,
{
    if i < s.len() {
        lemma_prefix_nonrare_rel(s, i + 1);
    }
}

/// Each line of one bucket's block is that posting's record.
proof fn lemma_bucket_line_at(
    files: Seq<crate::data_models::DocFrequency>,
    j0: int,
    j: int,
    nd: int,
    total: int,
    sizes: FileSizes,
    b: Seq<u8>,
)
    requires
        0 <= j0 <= j < files.len(),
        b == crate::write_query_files::spec_bucket_lines(files, j0, nd, total, sizes),
    ensures
        b.subrange(
            (j - j0) * spec_post_rec_size(sizes),
            (j - j0 + 1) * spec_post_rec_size(sizes),
        ) == crate::write_query_files::spec_post_line(files[j], nd, total, sizes),
    decreases j - j0,
{
    let rec = spec_post_rec_size(sizes);
    let line = crate::write_query_files::spec_post_line(files[j0], nd, total, sizes);
    let rest = crate::write_query_files::spec_bucket_lines(files, j0 + 1, nd, total, sizes);
    assert(b == line + rest);
    assert(line.len() == rec);
    crate::write_query_files::lemma_bucket_lines_len(files, j0 + 1, nd, total, sizes);
    if j0 == j {
        vstd::arithmetic::mul::lemma_mul_basics_1(rec);
        vstd::arithmetic::mul::lemma_mul_basics_4(rec);
        assert(b.subrange(0, rec) =~= line);
    } else {
        lemma_bucket_line_at(files, j0 + 1, j, nd, total, sizes, rest);
        let a1 = (j - j0 - 1) * rec;
        let a2 = (j - j0) * rec;
        let a3 = (j - j0 + 1) * rec;
        assert(a2 == a1 + rec) by {
            vstd::arithmetic::mul::lemma_mul_is_distributive_sub_other_way(rec, j - j0, 1);
        }
        assert(a3 == a2 + rec) by {
            vstd::arithmetic::mul::lemma_mul_is_distributive_sub_other_way(rec, j - j0 + 1, 1);
        }
        assert(a1 >= 0) by {
            vstd::arithmetic::mul::lemma_mul_inequality(0, j - j0 - 1, rec);
        }
        assert(a1 + rec <= rest.len()) by {
            vstd::arithmetic::mul::lemma_mul_inequality(j - j0, files.len() - j0 - 1, rec);
        }
        assert(b.subrange(a2, a3) =~= rest.subrange(a1, a1 + rec));
    }
}

/// A non-rare slot's block of posting lines sits at its accumulated prefix.
proof fn lemma_post_block_at(
    s: Seq<Option<TableEntry<crate::data_models::GlobHTBucket>>>,
    i: int,
    h: int,
    total: int,
    sizes: FileSizes,
    b: Seq<u8>,
)
    requires
        0 <= i <= h < s.len(),
        s[h] is Some,
        !crate::write_query_files::is_rare_bucket(s[h]->Some_0.value.files_view()),
        b == crate::write_query_files::spec_post_from(s, i, total, sizes),
    ensures
        ({
            let rec = spec_post_rec_size(sizes);
            let d = crate::write_query_files::spec_total_nonrare_prefix(s, h)
                - crate::write_query_files::spec_total_nonrare_prefix(s, i);
            let files = s[h]->Some_0.value.files_view();
            b.subrange(d * rec, (d + files.len()) * rec)
                == crate::write_query_files::spec_bucket_lines(
                files,
                0,
                files.len() as int,
                total,
                sizes,
            )
        }),
    decreases h - i,
{
    let rec = spec_post_rec_size(sizes);
    let files = s[h]->Some_0.value.files_view();
    let block = crate::write_query_files::spec_bucket_lines(
        files,
        0,
        files.len() as int,
        total,
        sizes,
    );
    let slot_lines = (match s[i] {
        Some(e) => if !crate::write_query_files::is_rare_bucket(e.value.files_view()) {
            crate::write_query_files::spec_bucket_lines(
                e.value.files_view(),
                0,
                e.value.files_view().len() as int,
                total,
                sizes,
            )
        } else {
            Seq::<u8>::empty()
        },
        None => Seq::<u8>::empty(),
    });
    let ci: int = (match s[i] {
        Some(e) => if !crate::write_query_files::is_rare_bucket(e.value.files_view()) {
            e.value.files_view().len() as int
        } else {
            0int
        },
        None => 0int,
    });
    let rest = crate::write_query_files::spec_post_from(s, i + 1, total, sizes);
    assert(b == slot_lines + rest);
    assert(slot_lines.len() == ci * rec) by {
        match s[i] {
            Some(e) => {
                if !crate::write_query_files::is_rare_bucket(e.value.files_view()) {
                    crate::write_query_files::lemma_bucket_lines_len(
                        e.value.files_view(),
                        0,
                        e.value.files_view().len() as int,
                        total,
                        sizes,
                    );
                } else {
                    vstd::arithmetic::mul::lemma_mul_basics_1(rec);
                }
            },
            None => {
                vstd::arithmetic::mul::lemma_mul_basics_1(rec);
            },
        }
    }
    if i == h {
        let d = crate::write_query_files::spec_total_nonrare_prefix(s, h)
            - crate::write_query_files::spec_total_nonrare_prefix(s, i);
        assert(d == 0);
        crate::write_query_files::lemma_bucket_lines_len(
            files,
            0,
            files.len() as int,
            total,
            sizes,
        );
        vstd::arithmetic::mul::lemma_mul_basics_1(rec);
        assert(d * rec == 0) by {
            vstd::arithmetic::mul::lemma_mul_basics_1(rec);
        }
        assert(b.subrange(0, files.len() as int * rec) =~= block);
    } else {
        lemma_post_block_at(s, i + 1, h, total, sizes, rest);
        crate::write_query_files::lemma_post_from_len(s, i + 1, total, sizes);
        let d = crate::write_query_files::spec_total_nonrare_prefix(s, h)
            - crate::write_query_files::spec_total_nonrare_prefix(s, i);
        let d2 = crate::write_query_files::spec_total_nonrare_prefix(s, h)
            - crate::write_query_files::spec_total_nonrare_prefix(s, i + 1);
        assert(d == d2 + ci);
        assert(d2 >= 0) by {
            lemma_prefix_mono(s, i + 1, h);
        }
        let a1 = d2 * rec;
        let a2 = d * rec;
        assert(a2 == a1 + ci * rec) by {
            vstd::arithmetic::mul::lemma_mul_is_distributive_add_other_way(rec, d2, ci);
        }
        assert((d + files.len()) * rec == (d2 + files.len()) * rec + ci * rec) by {
            vstd::arithmetic::mul::lemma_mul_is_distributive_add_other_way(
                rec,
                d2 + files.len() as int,
                ci,
            );
            vstd::arithmetic::mul::lemma_mul_is_distributive_add_other_way(
                rec,
                d,
                files.len() as int,
            );
            vstd::arithmetic::mul::lemma_mul_is_distributive_add_other_way(
                rec,
                d2,
                files.len() as int,
            );
        }
        assert((d2 + files.len()) * rec <= rest.len()) by {
            assert(d2 + files.len() <= crate::write_query_files::spec_nonrare_postings(
                s,
                i + 1,
            )) by {
                lemma_prefix_nonrare_rel(s, i + 1);
                lemma_prefix_step_bound(s, h);
                lemma_prefix_mono_end(s, h + 1);
            }
            vstd::arithmetic::mul::lemma_mul_inequality(
                d2 + files.len() as int,
                crate::write_query_files::spec_nonrare_postings(s, i + 1),
                rec,
            );
        }
        assert(a1 >= 0 && a2 >= a1);
        assert(b.len() == slot_lines.len() + rest.len());
        assert((d2 + files.len()) * rec == a1 + files.len() as int * rec) by {
            vstd::arithmetic::mul::lemma_mul_is_distributive_add_other_way(
                rec,
                d2,
                files.len() as int,
            );
        }
        assert((d + files.len()) * rec == a2 + files.len() as int * rec) by {
            vstd::arithmetic::mul::lemma_mul_is_distributive_add_other_way(
                rec,
                d,
                files.len() as int,
            );
        }
        assert(files.len() as int * rec >= 0) by {
            vstd::arithmetic::mul::lemma_mul_inequality(0, files.len() as int, rec);
            vstd::arithmetic::mul::lemma_mul_basics_1(rec);
        }
        assert(b.subrange(a2, (d + files.len()) * rec) =~= rest.subrange(
            a1,
            (d2 + files.len()) * rec,
        ));
    }
}

/// The running prefix is monotone.
proof fn lemma_prefix_mono(
    s: Seq<Option<TableEntry<crate::data_models::GlobHTBucket>>>,
    i: int,
    h: int,
)
    requires
        0 <= i <= h,
    ensures
        crate::write_query_files::spec_total_nonrare_prefix(s, i)
            <= crate::write_query_files::spec_total_nonrare_prefix(s, h),
    decreases h - i,
{
    if i < h {
        lemma_prefix_mono(s, i, h - 1);
        if h - 1 < s.len() {
            lemma_bucket_len_nonneg(s, h - 1);
        }
    }
}

proof fn lemma_bucket_len_nonneg(
    s: Seq<Option<TableEntry<crate::data_models::GlobHTBucket>>>,
    h: int,
)
    requires
        0 <= h < s.len(),
    ensures
        crate::write_query_files::spec_total_nonrare_prefix(s, h + 1)
            >= crate::write_query_files::spec_total_nonrare_prefix(s, h),
{
}

/// One slot's postings extend the prefix.
proof fn lemma_prefix_step_bound(
    s: Seq<Option<TableEntry<crate::data_models::GlobHTBucket>>>,
    h: int,
)
    requires
        0 <= h < s.len(),
        s[h] is Some,
        !crate::write_query_files::is_rare_bucket(s[h]->Some_0.value.files_view()),
    ensures
        crate::write_query_files::spec_total_nonrare_prefix(s, h + 1)
            == crate::write_query_files::spec_total_nonrare_prefix(s, h)
            + s[h]->Some_0.value.files_view().len(),
{
}

/// The prefix at any bound is at most the prefix at the end.
proof fn lemma_prefix_mono_end(
    s: Seq<Option<TableEntry<crate::data_models::GlobHTBucket>>>,
    i: int,
)
    requires
        0 <= i <= s.len(),
    ensures
        crate::write_query_files::spec_total_nonrare_prefix(s, i)
            <= crate::write_query_files::spec_total_nonrare_prefix(s, s.len() as int),
{
    lemma_prefix_mono(s, i, s.len() as int);
}

/// One written posting line parses back: the record at line
/// `prefix(s,h) + j` is posting `j` of slot `h`'s bucket.
proof fn lemma_post_line_parse(
    s: Seq<Option<TableEntry<crate::data_models::GlobHTBucket>>>,
    sizes: FileSizes,
    h: int,
    j: int,
    total: int,
    b: Seq<u8>,
)
    requires
        b == crate::write_query_files::spec_post_from(s, 0, total, sizes),
        0 <= h < s.len(),
        s[h] is Some,
        !crate::write_query_files::is_rare_bucket(s[h]->Some_0.value.files_view()),
        crate::write_query_files::bucket_wf(s[h]->Some_0.value.files_view(), total),
        total <= usize::MAX,
        0 <= j < s[h]->Some_0.value.files_view().len(),
        spec_decimal(
            s[h]->Some_0.value.files_view()[j].doc_id as nat,
        ).len() <= sizes.doc_id_length,
        spec_decimal(
            spec_weight(
                s[h]->Some_0.value.files_view()[j].raw_term_frequency as int,
                s[h]->Some_0.value.files_view()[j].doc_token_count as int,
                total,
                s[h]->Some_0.value.files_view().len() as int,
            ) as nat,
        ).len() <= sizes.weight_length,
    ensures
        ({
            let files = s[h]->Some_0.value.files_view();
            let w = spec_weight(
                files[j].raw_term_frequency as int,
                files[j].doc_token_count as int,
                total,
                files.len() as int,
            );
            spec_post_slot(
                b,
                sizes,
                crate::write_query_files::spec_total_nonrare_prefix(s, h) + j,
            ) == Some((files[j].doc_id, (w as usize)))
        }),
{
    let rec = spec_post_rec_size(sizes);
    let files = s[h]->Some_0.value.files_view();
    let nd = files.len() as int;
    let start = crate::write_query_files::spec_total_nonrare_prefix(s, h);
    let w = spec_weight(
        files[j].raw_term_frequency as int,
        files[j].doc_token_count as int,
        total,
        nd,
    );
    let line = crate::write_query_files::spec_post_line(files[j], nd, total, sizes);
    crate::write_query_files::lemma_bucket_len_le_total(files, total);
    crate::weight::lemma_weight_le_idf(
        files[j].raw_term_frequency as int,
        files[j].doc_token_count as int,
        total,
        nd,
    );
    crate::weight::lemma_idf_scaled_bound(total, nd);
    assert(0 <= w <= 21 * crate::constants::WEIGHT_MULTIPLIER);
    lemma_post_block_at(s, 0, h, total, sizes, b);
    let block = crate::write_query_files::spec_bucket_lines(files, 0, nd, total, sizes);
    assert(crate::write_query_files::spec_total_nonrare_prefix(s, 0) == 0);
    assert(b.subrange(start * rec, (start + nd) * rec) == block);
    lemma_bucket_line_at(files, 0, j, nd, total, sizes, block);
    crate::write_query_files::lemma_bucket_lines_len(files, 0, nd, total, sizes);
    crate::write_query_files::lemma_post_from_len(s, 0, total, sizes);
    lemma_prefix_mono(s, 0, h);
    lemma_prefix_nonrare_rel(s, 0);
    lemma_prefix_step_bound(s, h);
    lemma_prefix_mono_end(s, h + 1);
    assert(start >= 0);
    assert(start + nd <= crate::write_query_files::spec_nonrare_postings(s, 0));
    let off = (start + j) * rec;
    assert(off == start * rec + j * rec) by {
        vstd::arithmetic::mul::lemma_mul_is_distributive_add_other_way(rec, start, j);
    }
    assert(off + rec == start * rec + (j + 1) * rec) by {
        vstd::arithmetic::mul::lemma_mul_is_distributive_add_other_way(rec, j, 1);
        vstd::arithmetic::mul::lemma_mul_basics_4(rec);
    }
    assert((start + nd) * rec == start * rec + nd * rec) by {
        vstd::arithmetic::mul::lemma_mul_is_distributive_add_other_way(rec, start, nd);
    }
    assert(off + rec <= b.len()) by {
        assert(start + j + 1 <= start + nd);
        vstd::arithmetic::mul::lemma_mul_inequality(
            start + j + 1,
            crate::write_query_files::spec_nonrare_postings(s, 0),
            rec,
        );
        vstd::arithmetic::mul::lemma_mul_is_distributive_add_other_way(rec, start + j, 1);
        vstd::arithmetic::mul::lemma_mul_basics_4(rec);
    }
    assert(off >= 0) by {
        vstd::arithmetic::mul::lemma_mul_inequality(0, start + j, rec);
        vstd::arithmetic::mul::lemma_mul_basics_1(rec);
    }
    assert(j * rec >= 0) by {
        vstd::arithmetic::mul::lemma_mul_inequality(0, j, rec);
        vstd::arithmetic::mul::lemma_mul_basics_1(rec);
    }
    assert(block.len() == nd * rec);
    assert((start + nd) * rec <= b.len()) by {
        vstd::arithmetic::mul::lemma_mul_inequality(
            start + nd,
            crate::write_query_files::spec_nonrare_postings(s, 0),
            rec,
        );
    }
    assert((j + 1) * rec <= nd * rec) by {
        vstd::arithmetic::mul::lemma_mul_inequality(j + 1, nd, rec);
    }
    assert((j + 1) * rec == j * rec + rec) by {
        vstd::arithmetic::mul::lemma_mul_is_distributive_add_other_way(rec, j, 1);
        vstd::arithmetic::mul::lemma_mul_basics_4(rec);
    }
    assert(start * rec >= 0) by {
        vstd::arithmetic::mul::lemma_mul_inequality(0, start, rec);
        vstd::arithmetic::mul::lemma_mul_basics_1(rec);
    }
    assert forall|q: int| 0 <= q < rec implies #[trigger] b.subrange(off, off + rec)[q]
        == block.subrange(j * rec, (j + 1) * rec)[q] by {
        assert(block[j * rec + q] == b.subrange(start * rec, (start + nd) * rec)[j * rec + q]);
        assert(b.subrange(start * rec, (start + nd) * rec)[j * rec + q] == b[start * rec + j
            * rec + q]);
        assert(b.subrange(off, off + rec)[q] == b[off + q]);
    }
    assert(b.subrange(off, off + rec) =~= block.subrange(j * rec, (j + 1) * rec));
    assert(b.subrange(off, off + rec) == line);
    // parse the two numeric columns of the line
    let id_b = spec_decimal(files[j].doc_id as nat);
    let w_b = spec_decimal(w as nat);
    crate::decimal::lemma_decimal_digits(files[j].doc_id as nat);
    crate::decimal::lemma_decimal_digits(w as nat);
    crate::decimal::lemma_decimal_value(files[j].doc_id as nat);
    crate::decimal::lemma_decimal_value(w as nat);
    assert(b.subrange(off, off + sizes.doc_id_length) =~= spec_pad(
        id_b,
        sizes.doc_id_length as nat,
    )) by {
        assert(forall|q: int|
            0 <= q < sizes.doc_id_length ==> b.subrange(off, off + sizes.doc_id_length)[q]
                == #[trigger] line[q]);
        assert(forall|q: int|
            0 <= q < sizes.doc_id_length ==> #[trigger] spec_pad(
                id_b,
                sizes.doc_id_length as nat,
            )[q] == line[q]);
    }
    let w_from = off + sizes.doc_id_length + 1;
    assert(b.subrange(w_from, w_from + sizes.weight_length) =~= spec_pad(
        w_b,
        sizes.weight_length as nat,
    )) by {
        assert(forall|q: int|
            0 <= q < sizes.weight_length ==> b.subrange(w_from, w_from + sizes.weight_length)[q]
                == #[trigger] line[q + sizes.doc_id_length + 1]);
        assert(forall|q: int|
            0 <= q < sizes.weight_length ==> #[trigger] spec_pad(
                w_b,
                sizes.weight_length as nat,
            )[q] == line[q + sizes.doc_id_length + 1]);
    }
    assert(forall|q: int| 0 <= q < id_b.len() ==> !crate::decimal::is_ws(#[trigger] id_b[q]));
    assert(forall|q: int| 0 <= q < w_b.len() ==> !crate::decimal::is_ws(#[trigger] w_b[q]));
    lemma_pad_trim(id_b, sizes.doc_id_length as nat);
    lemma_pad_trim(w_b, sizes.weight_length as nat);
    assert(spec_num_field(b, off, off + sizes.doc_id_length) == Some(files[j].doc_id));
    assert(spec_num_field(b, w_from, w_from + sizes.weight_length) == Some((w as usize)));
}

/// Reading the postings back: the records at lines
/// `[prefix(s,h), prefix(s,h) + num_docs)` of the written postings are
/// exactly slot `h`'s posting list, each entry with its document id and its
/// quantized TF-IDF weight. Together with `lemma_probe_finds_term`, the
/// record a dictionary probe returns locates its term's postings.
pub proof fn lemma_posts_round_trip(
    s: Seq<Option<TableEntry<crate::data_models::GlobHTBucket>>>,
    sizes: FileSizes,
    h: int,
    total: int,
    b: Seq<u8>,
)
    requires
        b == crate::write_query_files::spec_post_from(s, 0, total, sizes),
        0 <= h < s.len(),
        s[h] is Some,
        !crate::write_query_files::is_rare_bucket(s[h]->Some_0.value.files_view()),
        crate::write_query_files::bucket_wf(s[h]->Some_0.value.files_view(), total),
        total <= usize::MAX,
        forall|j: int|
            0 <= j < s[h]->Some_0.value.files_view().len() ==> spec_decimal(
                (#[trigger] s[h]->Some_0.value.files_view()[j]).doc_id as nat,
            ).len() <= sizes.doc_id_length,
        forall|j: int|
            0 <= j < s[h]->Some_0.value.files_view().len() ==> spec_decimal(
                spec_weight(
                    (#[trigger] s[h]->Some_0.value.files_view()[j]).raw_term_frequency as int,
                    s[h]->Some_0.value.files_view()[j].doc_token_count as int,
                    total,
                    s[h]->Some_0.value.files_view().len() as int,
                ) as nat,
            ).len() <= sizes.weight_length,
    ensures
        ({
            let files = s[h]->Some_0.value.files_view();
            spec_term_posts(
                b,
                sizes,
                crate::write_query_files::spec_total_nonrare_prefix(s, h),
                files.len() as nat,
            ) == Some(
                Seq::new(
                    files.len(),
                    |j: int|
                        (
                            files[j].doc_id,
                            (spec_weight(
                                files[j].raw_term_frequency as int,
                                files[j].doc_token_count as int,
                                total,
                                files.len() as int,
                            ) as usize),
                        ),
                ),
            )
        }),
{
    let files = s[h]->Some_0.value.files_view();
    let start = crate::write_query_files::spec_total_nonrare_prefix(s, h);
    lemma_posts_round_trip_from(s, sizes, h, total, b, 0);
    let full = Seq::new(
        files.len(),
        |j: int|
            (
                files[j].doc_id,
                (spec_weight(
                    files[j].raw_term_frequency as int,
                    files[j].doc_token_count as int,
                    total,
                    files.len() as int,
                ) as usize),
            ),
    );
    let tail0 = Seq::new(
        files.len(),
        |q: int|
            (
                files[q + 0].doc_id,
                (spec_weight(
                    files[q + 0].raw_term_frequency as int,
                    files[q + 0].doc_token_count as int,
                    total,
                    files.len() as int,
                ) as usize),
            ),
    );
    assert(tail0 =~= full);
}

/// The suffix of the block from entry `j` on parses to that suffix of the
/// posting list.
proof fn lemma_posts_round_trip_from(
    s: Seq<Option<TableEntry<crate::data_models::GlobHTBucket>>>,
    sizes: FileSizes,
    h: int,
    total: int,
    b: Seq<u8>,
    j: int,
)
    requires
        b == crate::write_query_files::spec_post_from(s, 0, total, sizes),
        0 <= h < s.len(),
        s[h] is Some,
        !crate::write_query_files::is_rare_bucket(s[h]->Some_0.value.files_view()),
        crate::write_query_files::bucket_wf(s[h]->Some_0.value.files_view(), total),
        total <= usize::MAX,
        0 <= j <= s[h]->Some_0.value.files_view().len(),
        forall|q: int|
            0 <= q < s[h]->Some_0.value.files_view().len() ==> spec_decimal(
                (#[trigger] s[h]->Some_0.value.files_view()[q]).doc_id as nat,
            ).len() <= sizes.doc_id_length,
        forall|q: int|
            0 <= q < s[h]->Some_0.value.files_view().len() ==> spec_decimal(
                spec_weight(
                    (#[trigger] s[h]->Some_0.value.files_view()[q]).raw_term_frequency as int,
                    s[h]->Some_0.value.files_view()[q].doc_token_count as int,
                    total,
                    s[h]->Some_0.value.files_view().len() as int,
                ) as nat,
            ).len() <= sizes.weight_length,
    ensures
        ({
            let files = s[h]->Some_0.value.files_view();
            spec_term_posts(
                b,
                sizes,
                crate::write_query_files::spec_total_nonrare_prefix(s, h) + j,
                (files.len() - j) as nat,
            ) == Some(
                Seq::new(
                    (files.len() - j) as nat,
                    |q: int|
                        (
                            files[q + j].doc_id,
                            (spec_weight(
                                files[q + j].raw_term_frequency as int,
                                files[q + j].doc_token_count as int,
                                total,
                                files.len() as int,
                            ) as usize),
                        ),
                ),
            )
        }),
    decreases s[h]->Some_0.value.files_view().len() - j,
{
    let files = s[h]->Some_0.value.files_view();
    let start = crate::write_query_files::spec_total_nonrare_prefix(s, h);
    let tail = Seq::new(
        (files.len() - j) as nat,
        |q: int|
            (
                files[q + j].doc_id,
                (spec_weight(
                    files[q + j].raw_term_frequency as int,
                    files[q + j].doc_token_count as int,
                    total,
                    files.len() as int,
                ) as usize),
            ),
    );
    if j == files.len() {
        assert(tail =~= Seq::<(usize, usize)>::empty());
    } else {
        lemma_post_line_parse(s, sizes, h, j, total, b);
        lemma_posts_round_trip_from(s, sizes, h, total, b, j + 1);
        let rest = Seq::new(
            (files.len() - j - 1) as nat,
            |q: int|
                (
                    files[q + j + 1].doc_id,
                    (spec_weight(
                        files[q + j + 1].raw_term_frequency as int,
                        files[q + j + 1].doc_token_count as int,
                        total,
                        files.len() as int,
                    ) as usize),
                ),
        );
        let w = spec_weight(
            files[j].raw_term_frequency as int,
            files[j].doc_token_count as int,
            total,
            files.len() as int,
        );
        assert(tail =~= seq![(files[j].doc_id, (w as usize))] + rest);
    }
}

} // verus!
