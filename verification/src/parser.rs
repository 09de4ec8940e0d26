//! The lexical analyzer: raw document or query bytes (Latin-1 code points)
//! to a stream of normalized terms.
//!
//! Six categories are matched at each position, greedily: HTML tags and
//! entities (discarded), hyperlinks, e-mail addresses, numbers, and words.
//! The longest match wins; equal lengths fall to the earlier category.
//! Matched text is cleaned per category, lower-cased, and stripped of
//! non-ASCII bytes; empty tokens are dropped. Unmatched bytes are skipped.

use vstd::prelude::*;

verus! {

// ----- character classes -----
pub open spec fn is_space_b(b: u8) -> bool {
    b == 32 || b == 9 || b == 10 || b == 11 || b == 12 || b == 13
}

/// The letter class of the word grammar: every byte from `A` to `z`,
/// punctuation between the alphabets included.
pub open spec fn is_alpha_az(b: u8) -> bool {
    65 <= b <= 122
}

pub open spec fn is_digit_b(b: u8) -> bool {
    48 <= b <= 57
}

/// Word-constituent bytes: letters, digits and underscore.
pub open spec fn is_wordc(b: u8) -> bool {
    is_digit_b(b) || (65 <= b <= 90) || b == 95 || (97 <= b <= 122)
}

/// The local/domain class of the e-mail grammar.
pub open spec fn is_alnum_az(b: u8) -> bool {
    is_alpha_az(b) || is_digit_b(b)
}

/// Bytes of the number category after its leading digit.
pub open spec fn is_numc(b: u8) -> bool {
    is_digit_b(b) || b == 44 || b == 46 || b == 45
}

/// The skip class: whitespace and punctuation that never starts a token.
pub open spec fn is_skip_b(b: u8) -> bool {
    b == 32 || b == 9 || b == 0 || b == 0xa0 || b == 0x85 || b == 0xe2 || b == 33 || b == 34
        || b == 35 || b == 36 || b == 37 || b == 40 || b == 41 || b == 42 || b == 43 || b == 44
        || b == 45 || b == 46 || b == 47 || b == 58 || b == 59 || b == 61 || b == 62 || b == 63
        || b == 91 || b == 93 || b == 123 || b == 124 || b == 125
}


// ----- named predicate closures, shared by specs, lemmas and exec proofs -----
pub open spec fn wordc_pred() -> spec_fn(u8) -> bool {
    |b: u8| is_wordc(b)
}

pub open spec fn alnum_pred() -> spec_fn(u8) -> bool {
    |b: u8| is_alnum_az(b)
}

pub open spec fn numc_pred() -> spec_fn(u8) -> bool {
    |b: u8| is_numc(b)
}

pub open spec fn nonspace_pred() -> spec_fn(u8) -> bool {
    |b: u8| !is_space_b(b)
}

pub open spec fn skip_pred() -> spec_fn(u8) -> bool {
    |b: u8| is_skip_b(b)
}

// ----- runs and searches -----
/// The length of the run of bytes satisfying `pred` from `i`.
pub open spec fn run_len(s: Seq<u8>, i: int, pred: spec_fn(u8) -> bool) -> int
    decreases s.len() - i,
        when i >= 0
{
    if i < s.len() && pred(s[i]) {
        1 + run_len(s, i + 1, pred)
    } else {
        0
    }
}

/// The position of the first `>` at or after `i`, if any.
pub open spec fn find_gt(s: Seq<u8>, i: int) -> Option<int>
    decreases s.len() - i,
        when i >= 0
{
    if i >= s.len() {
        None
    } else if s[i] == 62 {
        Some(i)
    } else {
        find_gt(s, i + 1)
    }
}

/// The position of the first `=` at or after `i`, strictly before `end`.
pub open spec fn find_eq(s: Seq<u8>, i: int, end: int) -> Option<int>
    decreases end - i,
        when i >= 0
{
    if i >= end || i >= s.len() {
        None
    } else if s[i] == 61 {
        Some(i)
    } else {
        find_eq(s, i + 1, end)
    }
}

/// The number of non-space bytes in `[from, to)`.
pub open spec fn count_nonspace(s: Seq<u8>, from: int, to: int) -> int
    decreases to - from,
{
    if from >= to || from < 0 || to > s.len() {
        0
    } else {
        count_nonspace(s, from, to - 1) + if is_space_b(s[to - 1]) {
            0int
        } else {
            1int
        }
    }
}

// ----- the HTML tag grammar -----
/// A tag's attribute region `(a, g)` with no `=`: the rest of the tag name,
/// spaces, and at most one final slash.
pub open spec fn zero_attr_ok(s: Seq<u8>, a: int, g: int) -> bool {
    let h = if a < g && s[g - 1] == 47 {
        g - 1
    } else {
        g
    };
    let t = h - trailing_spaces(s, a, h);
    forall|j: int| a <= j < t ==> is_wordc(#[trigger] s[j])
}

/// The number of trailing spaces of `[a, h)`.
pub open spec fn trailing_spaces(s: Seq<u8>, a: int, h: int) -> int
    decreases h - a,
{
    if h <= a || h > s.len() || h < 1 {
        0
    } else if is_space_b(s[h - 1]) {
        1 + trailing_spaces(s, a, h - 1)
    } else {
        0
    }
}

/// The attribute pairs after the first `=`: each further `=` closes one
/// value-plus-name segment, and the final segment is a value.
pub open spec fn rest_attrs_ok(s: Seq<u8>, a: int, g: int) -> bool
    decreases g - a,
        when a >= 0
    via rest_attrs_ok_dec
{
    match find_eq(s, a, g) {
        None => count_nonspace(s, a, g) >= 1,
        Some(e) => {
            &&& e > a
            &&& !is_space_b(s[e - 1])
            &&& count_nonspace(s, a, e) >= 2
            &&& rest_attrs_ok(s, e + 1, g)
        },
    }
}

#[via_fn]
proof fn rest_attrs_ok_dec(s: Seq<u8>, a: int, g: int) {
    lemma_find_eq_bounds(s, a, g);
}

/// Bounds of `find_eq`: a hit lies in the searched range and is the first.
pub proof fn lemma_find_eq_bounds(s: Seq<u8>, i: int, end: int)
    requires
        i >= 0,
    ensures
        match find_eq(s, i, end) {
            Some(e) => i <= e < end && e < s.len() && s[e] == 61 && (forall|j: int|
                i <= j < e ==> s[j] != 61),
            None => forall|j: int| i <= j < end && j < s.len() ==> s[j] != 61,
        },
    decreases end - i,
{
    if i >= end || i >= s.len() {
    } else if s[i] == 61 {
    } else {
        lemma_find_eq_bounds(s, i + 1, end);
    }
}

/// Bounds of `find_gt`: a hit is in range and is the first `>`.
pub proof fn lemma_find_gt_bounds(s: Seq<u8>, i: int)
    requires
        i >= 0,
    ensures
        match find_gt(s, i) {
            Some(g) => i <= g < s.len() && s[g] == 62 && (forall|j: int|
                i <= j < g ==> s[j] != 62),
            None => forall|j: int| i <= j < s.len() ==> s[j] != 62,
        },
    decreases s.len() - i,
{
    if i >= s.len() {
    } else if s[i] == 62 {
    } else {
        lemma_find_gt_bounds(s, i + 1);
    }
}

/// The run from `i` stays inside the sequence.
pub proof fn lemma_run_len_bounds(s: Seq<u8>, i: int, pred: spec_fn(u8) -> bool)
    requires
        0 <= i <= s.len(),
    ensures
        0 <= run_len(s, i, pred) <= s.len() - i,
        forall|j: int| i <= j < i + run_len(s, i, pred) ==> pred(s[j]),
        i + run_len(s, i, pred) < s.len() ==> !pred(s[i + run_len(s, i, pred)]),
    decreases s.len() - i,
{
    if i < s.len() && pred(s[i]) {
        lemma_run_len_bounds(s, i + 1, pred);
    }
}

/// The attribute region `(a, g)` of a named tag, starting after the first
/// name byte.
pub open spec fn attrs_ok(s: Seq<u8>, a: int, g: int) -> bool {
    match find_eq(s, a, g) {
        None => zero_attr_ok(s, a, g),
        Some(e) => {
            &&& e > a
            &&& !is_space_b(s[e - 1])
            &&& rest_attrs_ok(s, e + 1, g)
        },
    }
}

/// The length of the HTML tag at `i`: a comment/doctype `<!...>`, or
/// `</?name attrs /?>`.
pub open spec fn tag_len(s: Seq<u8>, i: int) -> Option<int>
    recommends
        0 <= i <= s.len(),
{
    if i < s.len() && s[i] == 60 {
        if i + 1 < s.len() && s[i + 1] == 33 {
            match find_gt(s, i + 2) {
                Some(g) => if g >= i + 3 {
                    Some(g + 1 - i)
                } else {
                    None
                },
                None => None,
            }
        } else {
            let k = if i + 1 < s.len() && s[i + 1] == 47 {
                i + 2
            } else {
                i + 1
            };
            if k < s.len() && is_wordc(s[k]) {
                match find_gt(s, k + 1) {
                    Some(g) => if attrs_ok(s, k + 1, g) {
                        Some(g + 1 - i)
                    } else {
                        None
                    },
                    None => None,
                }
            } else {
                None
            }
        }
    } else {
        None
    }
}

/// The length of the HTML entity `&name` at `i`.
pub open spec fn entity_len(s: Seq<u8>, i: int) -> Option<int> {
    if i < s.len() && s[i] == 38 && run_len(s, i + 1, wordc_pred()) >= 1 {
        Some(1 + run_len(s, i + 1, wordc_pred()))
    } else {
        None
    }
}

/// Whether `s` holds `p` at position `i`.
pub open spec fn bytes_at(s: Seq<u8>, i: int, p: Seq<u8>) -> bool {
    i >= 0 && i + p.len() <= s.len() && s.subrange(i, i + p.len() as int) =~= p
}

pub open spec fn http_prefix() -> Seq<u8> {
    seq![104u8, 116u8, 116u8, 112u8, 58u8, 47u8, 47u8]
}

pub open spec fn https_prefix() -> Seq<u8> {
    seq![104u8, 116u8, 116u8, 112u8, 115u8, 58u8, 47u8, 47u8]
}

pub open spec fn www_prefix() -> Seq<u8> {
    seq![119u8, 119u8, 119u8, 46u8]
}

/// The length of the hyperlink at `i`: one of the three prefixes, then
/// non-space bytes to the first whitespace.
pub open spec fn link_len(s: Seq<u8>, i: int) -> Option<int> {
    let pl: int = if bytes_at(s, i, https_prefix()) {
        8
    } else if bytes_at(s, i, http_prefix()) {
        7
    } else if bytes_at(s, i, www_prefix()) {
        4
    } else {
        0
    };
    if pl > 0 && run_len(s, i + pl, nonspace_pred()) >= 1 {
        Some(pl + run_len(s, i + pl, nonspace_pred()))
    } else {
        None
    }
}

/// The length of the e-mail address `local@domain.tld` at `i`.
pub open spec fn email_len(s: Seq<u8>, i: int) -> Option<int> {
    let a = run_len(s, i, alnum_pred());
    if a >= 1 && i + a < s.len() && s[i + a] == 64 {
        let b = run_len(s, i + a + 1, alnum_pred());
        if b >= 1 && i + a + 1 + b < s.len() && s[i + a + 1 + b] == 46 {
            let c = run_len(s, i + a + 2 + b, alnum_pred());
            if c >= 1 {
                Some(a + 1 + b + 1 + c)
            } else {
                None
            }
        } else {
            None
        }
    } else {
        None
    }
}

/// The length of the number at `i`: a nonzero digit, then digits, commas,
/// dots and hyphens.
pub open spec fn number_len(s: Seq<u8>, i: int) -> Option<int> {
    if i < s.len() && 49 <= s[i] <= 57 {
        Some(1 + run_len(s, i + 1, numc_pred()))
    } else {
        None
    }
}

/// The length of the word tail from `j`: word bytes, apostrophes, hyphens,
/// dot-letter pairs, and embedded `<...>` runs.
pub open spec fn word_tail(s: Seq<u8>, j: int) -> int
    decreases s.len() - j,
        when j >= 0
    via word_tail_dec
{
    if j >= s.len() {
        0
    } else if is_wordc(s[j]) || s[j] == 39 || s[j] == 45 {
        1 + word_tail(s, j + 1)
    } else if s[j] == 46 && j + 1 < s.len() && is_wordc(s[j + 1]) {
        2 + word_tail(s, j + 2)
    } else if s[j] == 60 {
        match find_gt(s, j + 1) {
            Some(g) => if g >= j + 2 {
                (g + 1 - j) + word_tail(s, g + 1)
            } else {
                0
            },
            None => 0,
        }
    } else {
        0
    }
}

#[via_fn]
proof fn word_tail_dec(s: Seq<u8>, j: int) {
    if 0 <= j && j < s.len() {
        lemma_find_gt_bounds(s, j + 1);
    }
}

/// The word tail stays inside the sequence.
pub proof fn lemma_word_tail_bounds(s: Seq<u8>, j: int)
    requires
        0 <= j <= s.len(),
    ensures
        0 <= word_tail(s, j) <= s.len() - j,
    decreases s.len() - j,
{
    if j < s.len() {
        if is_wordc(s[j]) || s[j] == 39 || s[j] == 45 {
            lemma_word_tail_bounds(s, j + 1);
        } else if s[j] == 46 && j + 1 < s.len() && is_wordc(s[j + 1]) {
            lemma_word_tail_bounds(s, j + 2);
        } else if s[j] == 60 {
            lemma_find_gt_bounds(s, j + 1);
            match find_gt(s, j + 1) {
                Some(g) => {
                    if g >= j + 2 {
                        lemma_word_tail_bounds(s, g + 1);
                    }
                },
                None => {},
            }
        }
    }
}

/// The length of the word at `i`: a letter, then the word tail.
pub open spec fn word_len(s: Seq<u8>, i: int) -> Option<int> {
    if i < s.len() && is_alpha_az(s[i]) {
        Some(1 + word_tail(s, i + 1))
    } else {
        None
    }
}

// ----- token selection -----
pub open spec fn opt_len(o: Option<int>) -> int {
    match o {
        Some(l) => l,
        None => 0,
    }
}

/// The category and length of the token at `i`. Kinds: tag, entity, link,
/// e-mail, number and word in priority order; then a skip run; then one
/// unmatched byte.
pub open spec fn token_at(s: Seq<u8>, i: int) -> (int, int)
    recommends
        0 <= i < s.len(),
{
    let lt = opt_len(tag_len(s, i));
    let le = opt_len(entity_len(s, i));
    let ll = opt_len(link_len(s, i));
    let lm = opt_len(email_len(s, i));
    let ln = opt_len(number_len(s, i));
    let lw = opt_len(word_len(s, i));
    let best = max6(lt, le, ll, lm, ln, lw);
    if best >= 1 {
        if lt == best {
            (0, lt)
        } else if le == best {
            (1, le)
        } else if ll == best {
            (2, ll)
        } else if lm == best {
            (3, lm)
        } else if ln == best {
            (4, ln)
        } else {
            (5, lw)
        }
    } else {
        let sk = run_len(s, i, skip_pred());
        if sk >= 1 {
            (6, sk)
        } else {
            (7, 1)
        }
    }
}

pub open spec fn max6(a: int, b: int, c: int, d: int, e: int, f: int) -> int {
    let m1 = if a > b {
        a
    } else {
        b
    };
    let m2 = if m1 > c {
        m1
    } else {
        c
    };
    let m3 = if m2 > d {
        m2
    } else {
        d
    };
    let m4 = if m3 > e {
        m3
    } else {
        e
    };
    if m4 > f {
        m4
    } else {
        f
    }
}

// ----- cleaning -----
/// Lower-cases ASCII letters and removes non-ASCII bytes.
pub open spec fn clean_ascii_lower(t: Seq<u8>) -> Seq<u8>
    decreases t.len(),
{
    if t.len() == 0 {
        Seq::empty()
    } else {
        let h = t[0];
        let rest = clean_ascii_lower(t.drop_first());
        if h >= 128 {
            rest
        } else if 65 <= h <= 90 {
            seq![(h + 32) as u8] + rest
        } else {
            seq![h] + rest
        }
    }
}

/// Hyperlink cleaning: the protocol and `www` prefixes and every dot are
/// removed; the path from the first remaining slash is dropped.
pub open spec fn clean_link_raw(t: Seq<u8>) -> Seq<u8>
    decreases t.len(),
{
    if t.len() == 0 {
        Seq::empty()
    } else if t.len() >= 8 && t.subrange(0, 8) =~= https_prefix() {
        clean_link_raw(t.skip(8))
    } else if t.len() >= 7 && t.subrange(0, 7) =~= http_prefix() {
        clean_link_raw(t.skip(7))
    } else if t.len() >= 3 && t.subrange(0, 3) =~= www_prefix().take(3) {
        clean_link_raw(t.skip(3))
    } else if t[0] == 46 {
        clean_link_raw(t.skip(1))
    } else if t[0] == 47 {
        Seq::empty()
    } else {
        seq![t[0]] + clean_link_raw(t.skip(1))
    }
}

/// E-mail cleaning: everything from the `@` is dropped, and embedded
/// `<...>` runs are removed.
pub open spec fn clean_email_raw(t: Seq<u8>) -> Seq<u8>
    decreases t.len(),
    via clean_email_raw_dec
{
    if t.len() == 0 {
        Seq::empty()
    } else if t[0] == 64 {
        Seq::empty()
    } else if t[0] == 60 && (match find_gt(t, 1) {
        Some(g) => g >= 2,
        None => false,
    }) {
        clean_email_raw(t.skip(find_gt(t, 1)->Some_0 + 1))
    } else {
        seq![t[0]] + clean_email_raw(t.skip(1))
    }
}

#[via_fn]
proof fn clean_email_raw_dec(t: Seq<u8>) {
    lemma_find_gt_bounds(t, 1);
}

/// Number cleaning: commas and hyphens are removed, and everything from the
/// first dot is dropped.
pub open spec fn clean_number_raw(t: Seq<u8>) -> Seq<u8>
    decreases t.len(),
{
    if t.len() == 0 {
        Seq::empty()
    } else if t[0] == 44 || t[0] == 45 {
        clean_number_raw(t.skip(1))
    } else if t[0] == 46 {
        Seq::empty()
    } else {
        seq![t[0]] + clean_number_raw(t.skip(1))
    }
}

/// Word cleaning: dots, hyphens, apostrophes and embedded `<...>` runs are
/// removed.
pub open spec fn clean_word_raw(t: Seq<u8>) -> Seq<u8>
    decreases t.len(),
    via clean_word_raw_dec
{
    if t.len() == 0 {
        Seq::empty()
    } else if t[0] == 46 || t[0] == 45 || t[0] == 39 {
        clean_word_raw(t.skip(1))
    } else if t[0] == 60 && (match find_gt(t, 1) {
        Some(g) => g >= 2,
        None => false,
    }) {
        clean_word_raw(t.skip(find_gt(t, 1)->Some_0 + 1))
    } else {
        seq![t[0]] + clean_word_raw(t.skip(1))
    }
}

#[via_fn]
proof fn clean_word_raw_dec(t: Seq<u8>) {
    lemma_find_gt_bounds(t, 1);
}

/// The cleaned, lower-cased ASCII form of the token of kind `kind`.
pub open spec fn clean_token(kind: int, t: Seq<u8>) -> Seq<u8> {
    if kind == 2 {
        clean_ascii_lower(clean_link_raw(t))
    } else if kind == 3 {
        clean_ascii_lower(clean_email_raw(t))
    } else if kind == 4 {
        clean_ascii_lower(clean_number_raw(t))
    } else {
        clean_ascii_lower(clean_word_raw(t))
    }
}

/// The token stream of `s` from position `i`: cleaned emitted tokens of the
/// emitting categories, empty tokens dropped.
/// Every token has positive length and stays inside the sequence.
pub proof fn lemma_token_at_bounds(s: Seq<u8>, i: int)
    requires
        0 <= i < s.len(),
    ensures
        1 <= token_at(s, i).1 <= s.len() - i,
{
    lemma_find_gt_bounds(s, i + 2);
    let k = if i + 1 < s.len() && s[i + 1] == 47 {
        i + 2
    } else {
        i + 1
    };
    lemma_find_gt_bounds(s, k + 1);
    lemma_run_len_bounds(s, i + 1, wordc_pred());
    lemma_run_len_bounds(s, i, alnum_pred());
    let a = run_len(s, i, alnum_pred());
    if a >= 1 && i + a < s.len() && s[i + a] == 64 {
        lemma_run_len_bounds(s, i + a + 1, alnum_pred());
        let b = run_len(s, i + a + 1, alnum_pred());
        if b >= 1 && i + a + 1 + b < s.len() && s[i + a + 1 + b] == 46 {
            lemma_run_len_bounds(s, i + a + 2 + b, alnum_pred());
        }
    }
    if bytes_at(s, i, https_prefix()) {
        lemma_run_len_bounds(s, i + 8, nonspace_pred());
    }
    if bytes_at(s, i, http_prefix()) {
        lemma_run_len_bounds(s, i + 7, nonspace_pred());
    }
    if bytes_at(s, i, www_prefix()) {
        lemma_run_len_bounds(s, i + 4, nonspace_pred());
    }
    lemma_run_len_bounds(s, i + 1, numc_pred());
    if i + 1 <= s.len() {
        lemma_word_tail_bounds(s, i + 1);
    }
    lemma_run_len_bounds(s, i, skip_pred());
}

pub open spec fn spec_tokens(s: Seq<u8>, i: int) -> Seq<Seq<u8>>
    decreases s.len() - i,
        when 0 <= i
    via spec_tokens_dec
{
    if i >= s.len() {
        Seq::empty()
    } else {
        let (kind, len) = token_at(s, i);
        let step = if len >= 1 {
            len
        } else {
            1
        };
        let rest = spec_tokens(s, i + step);
        if 2 <= kind <= 5 {
            let c = clean_token(kind, s.subrange(i, i + step));
            if c.len() > 0 {
                seq![c] + rest
            } else {
                rest
            }
        } else {
            rest
        }
    }
}

#[via_fn]
proof fn spec_tokens_dec(s: Seq<u8>, i: int) {
    if 0 <= i && i < s.len() {
        lemma_token_at_bounds(s, i);
    }
}

/// The bytes of an ASCII token as characters.
pub open spec fn bytes_to_chars(t: Seq<u8>) -> Seq<char> {
    t.map_values(|b: u8| b as char)
}

/// The terms of `text`, each as a sequence of characters.
pub open spec fn spec_parse(text: Seq<u8>) -> Seq<Seq<char>> {
    spec_tokens(text, 0).map_values(|t: Seq<u8>| bytes_to_chars(t))
}

// ----- executable scanning helpers -----
fn is_wordc_x(b: u8) -> (r: bool)
    ensures
        r == is_wordc(b),
{
    (48 <= b && b <= 57) || (65 <= b && b <= 90) || b == 95 || (97 <= b && b <= 122)
}

fn is_space_x(b: u8) -> (r: bool)
    ensures
        r == is_space_b(b),
{
    b == 32 || b == 9 || b == 10 || b == 11 || b == 12 || b == 13
}

fn is_alnum_x(b: u8) -> (r: bool)
    ensures
        r == is_alnum_az(b),
{
    (65 <= b && b <= 122) || (48 <= b && b <= 57)
}

fn is_numc_x(b: u8) -> (r: bool)
    ensures
        r == is_numc(b),
{
    (48 <= b && b <= 57) || b == 44 || b == 46 || b == 45
}

fn is_skip_x(b: u8) -> (r: bool)
    ensures
        r == is_skip_b(b),
{
    b == 32 || b == 9 || b == 0 || b == 0xa0 || b == 0x85 || b == 0xe2 || b == 33 || b == 34
        || b == 35 || b == 36 || b == 37 || b == 40 || b == 41 || b == 42 || b == 43 || b == 44
        || b == 45 || b == 46 || b == 47 || b == 58 || b == 59 || b == 61 || b == 62 || b == 63
        || b == 91 || b == 93 || b == 123 || b == 124 || b == 125
}

/// One exec run scanner per predicate; `which` selects it.
fn class_x(which: u8, b: u8) -> (r: bool)
    requires
        which <= 4,
    ensures
        which == 0 ==> r == wordc_pred()(b),
        which == 1 ==> r == alnum_pred()(b),
        which == 2 ==> r == numc_pred()(b),
        which == 3 ==> r == nonspace_pred()(b),
        which == 4 ==> r == skip_pred()(b),
{
    if which == 0 {
        is_wordc_x(b)
    } else if which == 1 {
        is_alnum_x(b)
    } else if which == 2 {
        is_numc_x(b)
    } else if which == 3 {
        !is_space_x(b)
    } else {
        is_skip_x(b)
    }
}

pub open spec fn class_pred(which: u8) -> spec_fn(u8) -> bool {
    if which == 0 {
        wordc_pred()
    } else if which == 1 {
        alnum_pred()
    } else if which == 2 {
        numc_pred()
    } else if which == 3 {
        nonspace_pred()
    } else {
        skip_pred()
    }
}

/// The length of the run of class `which` from `i`.
fn run_x(s: &Vec<u8>, i: usize, which: u8) -> (r: usize)
    requires
        i <= s@.len(),
        which <= 4,
    ensures
        r as int == run_len(s@, i as int, class_pred(which)),
        i + r <= s@.len(),
{
    let ghost p = class_pred(which);
    let n = s.len();
    let mut j = i;
    while j < n && class_x(which, s[j])
        invariant
            i <= j <= n,
            n == s@.len(),
            which <= 4,
            p == class_pred(which),
            run_len(s@, i as int, p) == (j - i) + run_len(s@, j as int, p),
        decreases n - j,
    {
        proof {
            assert(run_len(s@, j as int, p) == 1 + run_len(s@, j + 1, p));
        }
        j = j + 1;
    }
    proof {
        assert(run_len(s@, j as int, p) == 0);
    }
    j - i
}

/// The position of the first `>` at or after `i`.
fn find_gt_x(s: &Vec<u8>, i: usize) -> (r: Option<usize>)
    requires
        i <= s@.len(),
    ensures
        match r {
            Some(g) => find_gt(s@, i as int) == Some(g as int) && i <= g < s@.len(),
            None => find_gt(s@, i as int) is None,
        },
{
    let n = s.len();
    let mut j = i;
    while j < n && s[j] != 62
        invariant
            i <= j <= n,
            n == s@.len(),
            find_gt(s@, i as int) == find_gt(s@, j as int),
        decreases n - j,
    {
        j = j + 1;
    }
    if j < n {
        Some(j)
    } else {
        None
    }
}

/// The position of the first `=` at or after `i`, before `end`.
fn find_eq_x(s: &Vec<u8>, i: usize, end: usize) -> (r: Option<usize>)
    requires
        i <= end <= s@.len(),
    ensures
        match r {
            Some(e) => find_eq(s@, i as int, end as int) == Some(e as int) && i <= e < end,
            None => find_eq(s@, i as int, end as int) is None,
        },
{
    let mut j = i;
    while j < end && s[j] != 61
        invariant
            i <= j <= end <= s@.len(),
            find_eq(s@, i as int, end as int) == find_eq(s@, j as int, end as int),
        decreases end - j,
    {
        j = j + 1;
    }
    if j < end {
        Some(j)
    } else {
        None
    }
}

/// The number of non-space bytes in `[from, to)`.
fn count_nonspace_x(s: &Vec<u8>, from: usize, to: usize) -> (r: usize)
    requires
        from <= to <= s@.len(),
    ensures
        r as int == count_nonspace(s@, from as int, to as int),
        r <= to - from,
{
    let mut cnt: usize = 0;
    let mut j = from;
    while j < to
        invariant
            from <= j <= to <= s@.len(),
            cnt as int == count_nonspace(s@, from as int, j as int),
            cnt <= j - from,
        decreases to - j,
    {
        if !is_space_x(s[j]) {
            cnt = cnt + 1;
        }
        j = j + 1;
    }
    cnt
}

/// The number of trailing spaces of `[a, h)`.
fn trailing_spaces_x(s: &Vec<u8>, a: usize, h: usize) -> (r: usize)
    requires
        a <= h <= s@.len(),
    ensures
        r as int == trailing_spaces(s@, a as int, h as int),
        r <= h - a,
{
    let mut j = h;
    while j > a && is_space_x(s[j - 1])
        invariant
            a <= j <= h <= s@.len(),
            trailing_spaces(s@, a as int, h as int) == (h - j) + trailing_spaces(
                s@,
                a as int,
                j as int,
            ),
        decreases j,
    {
        j = j - 1;
    }
    h - j
}

fn zero_attr_ok_x(s: &Vec<u8>, a: usize, g: usize) -> (r: bool)
    requires
        a <= g <= s@.len(),
    ensures
        r == zero_attr_ok(s@, a as int, g as int),
{
    let h = if a < g && s[g - 1] == 47 {
        g - 1
    } else {
        g
    };
    let ts = trailing_spaces_x(s, a, h);
    let t = h - ts;
    let mut j = a;
    while j < t
        invariant
            a <= j,
            t <= s@.len(),
            j <= t || t < a,
            t == h - trailing_spaces(s@, a as int, h as int),
            h == (if a < g && s@[g as int - 1] == 47 {
                g - 1
            } else {
                g as int
            }),
            a <= g <= s@.len(),
            forall|q: int| a <= q < j ==> is_wordc(#[trigger] s@[q]),
        decreases t - j,
    {
        if !is_wordc_x(s[j]) {
            return false;
        }
        j = j + 1;
    }
    true
}

fn rest_attrs_ok_x(s: &Vec<u8>, a: usize, g: usize) -> (r: bool)
    requires
        a <= g <= s@.len(),
    ensures
        r == rest_attrs_ok(s@, a as int, g as int),
{
    let mut cur = a;
    loop
        invariant
            a <= cur <= g <= s@.len(),
            rest_attrs_ok(s@, a as int, g as int) == rest_attrs_ok(s@, cur as int, g as int),
        decreases g - cur,
    {
        match find_eq_x(s, cur, g) {
            None => {
                let c = count_nonspace_x(s, cur, g);
                return c >= 1;
            },
            Some(e) => {
                if !(e > cur) {
                    return false;
                }
                if is_space_x(s[e - 1]) {
                    return false;
                }
                let c = count_nonspace_x(s, cur, e);
                if c < 2 {
                    return false;
                }
                cur = e + 1;
            },
        }
    }
}

fn attrs_ok_x(s: &Vec<u8>, a: usize, g: usize) -> (r: bool)
    requires
        a <= g <= s@.len(),
    ensures
        r == attrs_ok(s@, a as int, g as int),
{
    match find_eq_x(s, a, g) {
        None => zero_attr_ok_x(s, a, g),
        Some(e) => {
            if !(e > a) {
                return false;
            }
            if is_space_x(s[e - 1]) {
                return false;
            }
            rest_attrs_ok_x(s, e + 1, g)
        },
    }
}

/// The HTML tag at `i`, if any.
fn tag_len_x(s: &Vec<u8>, i: usize) -> (r: Option<usize>)
    requires
        i < s@.len(),
    ensures
        match r {
            Some(l) => tag_len(s@, i as int) == Some(l as int) && 1 <= l <= s@.len() - i,
            None => tag_len(s@, i as int) is None,
        },
{
    let n = s.len();
    if s[i] != 60 {
        return None;
    }
    if i + 1 < n && s[i + 1] == 33 {
        match find_gt_x(s, i + 2) {
            Some(g) => {
                if g >= i + 3 {
                    Some(g + 1 - i)
                } else {
                    None
                }
            },
            None => None,
        }
    } else {
        let k = if i + 1 < n && s[i + 1] == 47 {
            i + 2
        } else {
            i + 1
        };
        if k < n && is_wordc_x(s[k]) {
            match find_gt_x(s, k + 1) {
                Some(g) => {
                    if attrs_ok_x(s, k + 1, g) {
                        Some(g + 1 - i)
                    } else {
                        None
                    }
                },
                None => None,
            }
        } else {
            None
        }
    }
}

/// The HTML entity at `i`, if any.
fn entity_len_x(s: &Vec<u8>, i: usize) -> (r: Option<usize>)
    requires
        i < s@.len(),
    ensures
        match r {
            Some(l) => entity_len(s@, i as int) == Some(l as int) && 1 <= l <= s@.len() - i,
            None => entity_len(s@, i as int) is None,
        },
{
    let n = s.len();
    if s[i] == 38 {
        let w = run_x(s, i + 1, 0);
        if w >= 1 {
            Some(1 + w)
        } else {
            None
        }
    } else {
        None
    }
}

/// Whether the bytes at `i` begin a hyperlink prefix; 0 when none.
fn link_prefix_x(s: &Vec<u8>, i: usize) -> (r: usize)
    requires
        i < s@.len(),
    ensures
        r as int == (if bytes_at(s@, i as int, https_prefix()) {
            8int
        } else if bytes_at(s@, i as int, http_prefix()) {
            7int
        } else if bytes_at(s@, i as int, www_prefix()) {
            4int
        } else {
            0int
        }),
        i + r <= s@.len(),
{
    let n = s.len();
    if n - i >= 8 && s[i] == 104 && s[i + 1] == 116 && s[i + 2] == 116 && s[i + 3] == 112 && s[i
        + 4] == 115 && s[i + 5] == 58 && s[i + 6] == 47 && s[i + 7] == 47 {
        proof {
            assert(s@.subrange(i as int, i + 8) =~= https_prefix());
        }
        return 8;
    }
    proof {
        if i + 8 <= n {
            assert(!(s@.subrange(i as int, i + 8) =~= https_prefix()) ==> !bytes_at(
                s@,
                i as int,
                https_prefix(),
            ));
            if bytes_at(s@, i as int, https_prefix()) {
                assert(s@.subrange(i as int, i + 8)[0] == s@[i as int]);
                assert(s@.subrange(i as int, i + 8)[1] == s@[i + 1]);
                assert(s@.subrange(i as int, i + 8)[2] == s@[i + 2]);
                assert(s@.subrange(i as int, i + 8)[3] == s@[i + 3]);
                assert(s@.subrange(i as int, i + 8)[4] == s@[i + 4]);
                assert(s@.subrange(i as int, i + 8)[5] == s@[i + 5]);
                assert(s@.subrange(i as int, i + 8)[6] == s@[i + 6]);
                assert(s@.subrange(i as int, i + 8)[7] == s@[i + 7]);
            }
        }
        assert(!bytes_at(s@, i as int, https_prefix()));
    }
    if n - i >= 7 && s[i] == 104 && s[i + 1] == 116 && s[i + 2] == 116 && s[i + 3] == 112 && s[i
        + 4] == 58 && s[i + 5] == 47 && s[i + 6] == 47 {
        proof {
            assert(s@.subrange(i as int, i + 7) =~= http_prefix());
        }
        return 7;
    }
    proof {
        if i + 7 <= n && bytes_at(s@, i as int, http_prefix()) {
            assert(s@.subrange(i as int, i + 7)[0] == s@[i as int]);
            assert(s@.subrange(i as int, i + 7)[1] == s@[i + 1]);
            assert(s@.subrange(i as int, i + 7)[2] == s@[i + 2]);
            assert(s@.subrange(i as int, i + 7)[3] == s@[i + 3]);
            assert(s@.subrange(i as int, i + 7)[4] == s@[i + 4]);
            assert(s@.subrange(i as int, i + 7)[5] == s@[i + 5]);
            assert(s@.subrange(i as int, i + 7)[6] == s@[i + 6]);
        }
        assert(!bytes_at(s@, i as int, http_prefix()));
    }
    if n - i >= 4 && s[i] == 119 && s[i + 1] == 119 && s[i + 2] == 119 && s[i + 3] == 46 {
        proof {
            assert(s@.subrange(i as int, i + 4) =~= www_prefix());
        }
        return 4;
    }
    proof {
        if i + 4 <= n && bytes_at(s@, i as int, www_prefix()) {
            assert(s@.subrange(i as int, i + 4)[0] == s@[i as int]);
            assert(s@.subrange(i as int, i + 4)[1] == s@[i + 1]);
            assert(s@.subrange(i as int, i + 4)[2] == s@[i + 2]);
            assert(s@.subrange(i as int, i + 4)[3] == s@[i + 3]);
        }
        assert(!bytes_at(s@, i as int, www_prefix()));
    }
    0
}

/// The hyperlink at `i`, if any.
fn link_len_x(s: &Vec<u8>, i: usize) -> (r: Option<usize>)
    requires
        i < s@.len(),
    ensures
        match r {
            Some(l) => link_len(s@, i as int) == Some(l as int) && 1 <= l <= s@.len() - i,
            None => link_len(s@, i as int) is None,
        },
{
    let n = s.len();
    let pl = link_prefix_x(s, i);
    if pl > 0 {
        let r = run_x(s, i + pl, 3);
        if r >= 1 {
            Some(pl + r)
        } else {
            None
        }
    } else {
        None
    }
}

/// The e-mail address at `i`, if any.
fn email_len_x(s: &Vec<u8>, i: usize) -> (r: Option<usize>)
    requires
        i < s@.len(),
    ensures
        match r {
            Some(l) => email_len(s@, i as int) == Some(l as int) && 1 <= l <= s@.len() - i,
            None => email_len(s@, i as int) is None,
        },
{
    let n = s.len();
    let a = run_x(s, i, 1);
    if a >= 1 && i + a < n && s[i + a] == 64 {
        let b = run_x(s, i + a + 1, 1);
        if b >= 1 && i + a + 1 + b < n && s[i + a + 1 + b] == 46 {
            let c = run_x(s, i + a + 2 + b, 1);
            if c >= 1 {
                Some(a + 1 + b + 1 + c)
            } else {
                None
            }
        } else {
            None
        }
    } else {
        None
    }
}

/// The number at `i`, if any.
fn number_len_x(s: &Vec<u8>, i: usize) -> (r: Option<usize>)
    requires
        i < s@.len(),
    ensures
        match r {
            Some(l) => number_len(s@, i as int) == Some(l as int) && 1 <= l <= s@.len() - i,
            None => number_len(s@, i as int) is None,
        },
{
    let n = s.len();
    if 49 <= s[i] && s[i] <= 57 {
        let r = run_x(s, i + 1, 2);
        Some(1 + r)
    } else {
        None
    }
}

/// The word at `i`, if any.
fn word_len_x(s: &Vec<u8>, i: usize) -> (r: Option<usize>)
    requires
        i < s@.len(),
    ensures
        match r {
            Some(l) => word_len(s@, i as int) == Some(l as int) && 1 <= l <= s@.len() - i,
            None => word_len(s@, i as int) is None,
        },
{
    if !(65 <= s[i] && s[i] <= 122) {
        return None;
    }
    let n = s.len();
    let mut j = i + 1;
    let mut acc: usize = 0;
    while j < n
        invariant
            i + 1 <= j <= n,
            n == s@.len(),
            acc == j - i - 1,
            word_tail(s@, i + 1) == acc + word_tail(s@, j as int),
        ensures
            i + 1 <= j <= n,
            n == s@.len(),
            word_tail(s@, i + 1) == j - i - 1,
        decreases n - j,
    {
        let b = s[j];
        if is_wordc_x(b) || b == 39 || b == 45 {
            j = j + 1;
        } else if b == 46 && j + 1 < n && is_wordc_x(s[j + 1]) {
            j = j + 2;
        } else if b == 60 {
            match find_gt_x(s, j + 1) {
                Some(g) => {
                    if g >= j + 2 {
                        proof {
                            lemma_find_gt_bounds(s@, j + 1);
                        }
                        j = g + 1;
                    } else {
                        proof {
                            assert(word_tail(s@, j as int) == 0);
                        }
                        break ;
                    }
                },
                None => {
                    proof {
                        assert(word_tail(s@, j as int) == 0);
                    }
                    break ;
                },
            }
        } else {
            proof {
                assert(word_tail(s@, j as int) == 0);
            }
            break ;
        }
        acc = j - i - 1;
    }
    proof {
        lemma_word_tail_bounds(s@, i + 1);
    }
    Some(1 + (j - i - 1))
}

/// The token category and length at `i`.
fn token_at_x(s: &Vec<u8>, i: usize) -> (r: (usize, usize))
    requires
        i < s@.len(),
    ensures
        (r.0 as int, r.1 as int) == token_at(s@, i as int),
        1 <= r.1 <= s@.len() - i,
{
    let lt = match tag_len_x(s, i) {
        Some(l) => l,
        None => 0,
    };
    let le = match entity_len_x(s, i) {
        Some(l) => l,
        None => 0,
    };
    let ll = match link_len_x(s, i) {
        Some(l) => l,
        None => 0,
    };
    let lm = match email_len_x(s, i) {
        Some(l) => l,
        None => 0,
    };
    let ln = match number_len_x(s, i) {
        Some(l) => l,
        None => 0,
    };
    let lw = match word_len_x(s, i) {
        Some(l) => l,
        None => 0,
    };
    let mut best = lt;
    if le > best {
        best = le;
    }
    if ll > best {
        best = ll;
    }
    if lm > best {
        best = lm;
    }
    if ln > best {
        best = ln;
    }
    if lw > best {
        best = lw;
    }
    if best >= 1 {
        if lt == best {
            (0, lt)
        } else if le == best {
            (1, le)
        } else if ll == best {
            (2, ll)
        } else if lm == best {
            (3, lm)
        } else if ln == best {
            (4, ln)
        } else {
            (5, lw)
        }
    } else {
        let sk = run_x(s, i, 4);
        if sk >= 1 {
            (6, sk)
        } else {
            (7, 1)
        }
    }
}

// ----- executable cleaning -----
/// Copies `s[from..to]` into a fresh vector.
fn slice_vec(s: &Vec<u8>, from: usize, to: usize) -> (r: Vec<u8>)
    requires
        from <= to <= s@.len(),
    ensures
        r@ == s@.subrange(from as int, to as int),
{
    let mut r: Vec<u8> = Vec::new();
    let mut j = from;
    while j < to
        invariant
            from <= j <= to <= s@.len(),
            r@ =~= s@.subrange(from as int, j as int),
        decreases to - j,
    {
        proof {
            assert(s@.subrange(from as int, j + 1) =~= s@.subrange(from as int, j as int).push(
                s@[j as int],
            ));
        }
        r.push(s[j]);
        j = j + 1;
    }
    r
}

/// Lower-cases ASCII letters and drops non-ASCII bytes.
fn clean_ascii_lower_x(t: &Vec<u8>) -> (r: Vec<u8>)
    ensures
        r@ == clean_ascii_lower(t@),
        forall|k: int| 0 <= k < r@.len() ==> r@[k] < 128,
{
    let n = t.len();
    let mut r: Vec<u8> = Vec::new();
    let mut j: usize = 0;
    proof {
        assert(t@.skip(0) =~= t@);
        assert(Seq::<u8>::empty() + clean_ascii_lower(t@) =~= clean_ascii_lower(t@));
        assert(Seq::<u8>::empty() + clean_link_raw(t@) =~= clean_link_raw(t@));
        assert(Seq::<u8>::empty() + clean_email_raw(t@) =~= clean_email_raw(t@));
        assert(Seq::<u8>::empty() + clean_word_raw(t@) =~= clean_word_raw(t@));
        assert(Seq::<u8>::empty() + clean_number_raw(t@) =~= clean_number_raw(t@));
    }
    while j < n
        invariant
            j <= n,
            n == t@.len(),
            clean_ascii_lower(t@) == r@ + clean_ascii_lower(t@.skip(j as int)),
            forall|k: int| 0 <= k < r@.len() ==> r@[k] < 128,
        decreases n - j,
    {
        let ghost u = t@.skip(j as int);
        proof {
            assert(u[0] == t@[j as int]);
            assert(u.drop_first() =~= t@.skip(j + 1));
        }
        let b = t[j];
        if b >= 128 {
        } else if 65 <= b && b <= 90 {
            r.push(b + 32);
            proof {
                assert(r@ + clean_ascii_lower(t@.skip(j + 1)) =~= joined_with_byte(
                    r@.drop_last(),
                    (b + 32) as u8,
                    clean_ascii_lower(t@.skip(j + 1)),
                ));
            }
        } else {
            r.push(b);
            proof {
                assert(r@ + clean_ascii_lower(t@.skip(j + 1)) =~= joined_with_byte(
                    r@.drop_last(),
                    b,
                    clean_ascii_lower(t@.skip(j + 1)),
                ));
            }
        }
        j = j + 1;
    }
    proof {
        assert(t@.skip(n as int) =~= Seq::<u8>::empty());
        assert(clean_ascii_lower(t@) =~= r@);
    }
    r
}

/// `a + [b] + c`: one byte appended between a built prefix and a cleaned
/// suffix, to phrase the cleaning loops' invariants.
pub open spec fn joined_with_byte(a: Seq<u8>, b: u8, c: Seq<u8>) -> Seq<u8> {
    a + seq![b] + c
}

/// Applies the hyperlink cleaning, before lower-casing.
fn clean_link_raw_x(t: &Vec<u8>) -> (r: Vec<u8>)
    ensures
        r@ == clean_link_raw(t@),
{
    let n = t.len();
    let mut r: Vec<u8> = Vec::new();
    let mut j: usize = 0;
    proof {
        assert(t@.skip(0) =~= t@);
        assert(Seq::<u8>::empty() + clean_ascii_lower(t@) =~= clean_ascii_lower(t@));
        assert(Seq::<u8>::empty() + clean_link_raw(t@) =~= clean_link_raw(t@));
        assert(Seq::<u8>::empty() + clean_email_raw(t@) =~= clean_email_raw(t@));
        assert(Seq::<u8>::empty() + clean_word_raw(t@) =~= clean_word_raw(t@));
        assert(Seq::<u8>::empty() + clean_number_raw(t@) =~= clean_number_raw(t@));
    }
    while j < n
        invariant
            j <= n,
            n == t@.len(),
            clean_link_raw(t@) == r@ + clean_link_raw(t@.skip(j as int)),
        ensures
            clean_link_raw(t@) == r@,
        decreases n - j,
    {
        let ghost u = t@.skip(j as int);
        proof {
            assert(u.len() == n - j);
            assert(u[0] == t@[j as int]);
            assert(u.drop_first() =~= t@.skip(j + 1));
            assert(u.skip(1) =~= t@.skip(j + 1));
        }
        let b = t[j];
        if n - j >= 8 && b == 104 && t[j + 1] == 116 && t[j + 2] == 116 && t[j + 3] == 112 && t[j
            + 4] == 115 && t[j + 5] == 58 && t[j + 6] == 47 && t[j + 7] == 47 {
            proof {
                assert(u.subrange(0, 8) =~= https_prefix());
                assert(u.skip(8) =~= t@.skip(j + 8));
            }
            j = j + 8;
        } else {
            proof {
                if u.len() >= 8 && u.subrange(0, 8) =~= https_prefix() {
                    assert(u.subrange(0, 8)[0] == t@[j as int]);
                    assert(u.subrange(0, 8)[1] == t@[j + 1]);
                    assert(u.subrange(0, 8)[2] == t@[j + 2]);
                    assert(u.subrange(0, 8)[3] == t@[j + 3]);
                    assert(u.subrange(0, 8)[4] == t@[j + 4]);
                    assert(u.subrange(0, 8)[5] == t@[j + 5]);
                    assert(u.subrange(0, 8)[6] == t@[j + 6]);
                    assert(u.subrange(0, 8)[7] == t@[j + 7]);
                    assert(false);
                }
            }
            if n - j >= 7 && b == 104 && t[j + 1] == 116 && t[j + 2] == 116 && t[j + 3] == 112
                && t[j + 4] == 58 && t[j + 5] == 47 && t[j + 6] == 47 {
                proof {
                    assert(u.subrange(0, 7) =~= http_prefix());
                    assert(u.skip(7) =~= t@.skip(j + 7));
                }
                j = j + 7;
            } else {
                proof {
                    if u.len() >= 7 && u.subrange(0, 7) =~= http_prefix() {
                        assert(u.subrange(0, 7)[0] == t@[j as int]);
                        assert(u.subrange(0, 7)[1] == t@[j + 1]);
                        assert(u.subrange(0, 7)[2] == t@[j + 2]);
                        assert(u.subrange(0, 7)[3] == t@[j + 3]);
                        assert(u.subrange(0, 7)[4] == t@[j + 4]);
                        assert(u.subrange(0, 7)[5] == t@[j + 5]);
                        assert(u.subrange(0, 7)[6] == t@[j + 6]);
                        assert(false);
                    }
                }
                if n - j >= 3 && b == 119 && t[j + 1] == 119 && t[j + 2] == 119 {
                    proof {
                        assert(u.subrange(0, 3) =~= www_prefix().take(3));
                        assert(u.skip(3) =~= t@.skip(j + 3));
                    }
                    j = j + 3;
                } else {
                    proof {
                        if u.len() >= 3 && u.subrange(0, 3) =~= www_prefix().take(3) {
                            assert(u.subrange(0, 3)[0] == t@[j as int]);
                            assert(u.subrange(0, 3)[1] == t@[j + 1]);
                            assert(u.subrange(0, 3)[2] == t@[j + 2]);
                            assert(www_prefix().take(3)[0] == 119);
                            assert(www_prefix().take(3)[1] == 119);
                            assert(www_prefix().take(3)[2] == 119);
                            assert(false);
                        }
                    }
                    if b == 46 {
                        j = j + 1;
                    } else if b == 47 {
                        proof {
                            assert(clean_link_raw(u) =~= Seq::<u8>::empty());
                            assert(clean_link_raw(t@) =~= r@);
                        }
                        break ;
                    } else {
                        r.push(b);
                        proof {
                            assert(r@ + clean_link_raw(t@.skip(j + 1)) =~= joined_with_byte(
                                r@.drop_last(),
                                b,
                                clean_link_raw(t@.skip(j + 1)),
                            ));
                        }
                        j = j + 1;
                    }
                }
            }
        }
    }
    proof {
        if j >= n {
            assert(t@.skip(j as int).len() == 0);
            assert(clean_link_raw(t@.skip(j as int)) =~= Seq::<u8>::empty());
            assert(clean_link_raw(t@) =~= r@);
        }
    }
    r
}

/// Applies the e-mail or word cleaning, before lower-casing: `sel` is 0 for
/// e-mail (stop at `@`), 1 for words (drop dots, hyphens and apostrophes).
fn clean_ew_raw_x(t: &Vec<u8>, sel: u8) -> (r: Vec<u8>)
    requires
        sel <= 1,
    ensures
        sel == 0 ==> r@ == clean_email_raw(t@),
        sel == 1 ==> r@ == clean_word_raw(t@),
{
    let n = t.len();
    let mut r: Vec<u8> = Vec::new();
    let mut j: usize = 0;
    proof {
        assert(t@.skip(0) =~= t@);
        assert(Seq::<u8>::empty() + clean_ascii_lower(t@) =~= clean_ascii_lower(t@));
        assert(Seq::<u8>::empty() + clean_link_raw(t@) =~= clean_link_raw(t@));
        assert(Seq::<u8>::empty() + clean_email_raw(t@) =~= clean_email_raw(t@));
        assert(Seq::<u8>::empty() + clean_word_raw(t@) =~= clean_word_raw(t@));
        assert(Seq::<u8>::empty() + clean_number_raw(t@) =~= clean_number_raw(t@));
    }
    while j < n
        invariant
            j <= n,
            n == t@.len(),
            sel <= 1,
            sel == 0 ==> clean_email_raw(t@) == r@ + clean_email_raw(t@.skip(j as int)),
            sel == 1 ==> clean_word_raw(t@) == r@ + clean_word_raw(t@.skip(j as int)),
        ensures
            sel == 0 ==> clean_email_raw(t@) == r@,
            sel == 1 ==> clean_word_raw(t@) == r@,
        decreases n - j,
    {
        let ghost u = t@.skip(j as int);
        proof {
            assert(u[0] == t@[j as int]);
            assert(u.skip(1) =~= t@.skip(j + 1));
        }
        let b = t[j];
        if sel == 0 && b == 64 {
            proof {
                assert(clean_email_raw(u) =~= Seq::<u8>::empty());
                assert(clean_email_raw(t@) =~= r@);
            }
            break ;
        } else if sel == 1 && (b == 46 || b == 45 || b == 39) {
            j = j + 1;
        } else if b == 60 {
            match find_gt_x(t, j + 1) {
                Some(g) => {
                    if g >= j + 2 {
                        proof {
                            lemma_find_gt_bounds(t@, j + 1);
                            lemma_find_gt_skip(t@, j as int, g as int);
                            assert(u.skip(g + 1 - j) =~= t@.skip(g + 1));
                        }
                        j = g + 1;
                    } else {
                        proof {
                            lemma_find_gt_bounds(t@, j + 1);
                            lemma_find_gt_skip(t@, j as int, g as int);
                        }
                        r.push(b);
                        proof {
                            assert(sel == 0 ==> r@ + clean_email_raw(t@.skip(j + 1))
                                =~= joined_with_byte(
                                r@.drop_last(),
                                b,
                                clean_email_raw(t@.skip(j + 1)),
                            ));
                            assert(sel == 1 ==> r@ + clean_word_raw(t@.skip(j + 1))
                                =~= joined_with_byte(
                                r@.drop_last(),
                                b,
                                clean_word_raw(t@.skip(j + 1)),
                            ));
                        }
                        j = j + 1;
                    }
                },
                None => {
                    proof {
                        lemma_find_gt_bounds(t@, j + 1);
                        lemma_find_gt_none_skip(t@, j as int);
                    }
                    r.push(b);
                    proof {
                        assert(sel == 0 ==> r@ + clean_email_raw(t@.skip(j + 1))
                            =~= joined_with_byte(
                            r@.drop_last(),
                            b,
                            clean_email_raw(t@.skip(j + 1)),
                        ));
                        assert(sel == 1 ==> r@ + clean_word_raw(t@.skip(j + 1))
                            =~= joined_with_byte(
                            r@.drop_last(),
                            b,
                            clean_word_raw(t@.skip(j + 1)),
                        ));
                    }
                    j = j + 1;
                },
            }
        } else {
            r.push(b);
            proof {
                assert(sel == 0 ==> r@ + clean_email_raw(t@.skip(j + 1)) =~= joined_with_byte(
                    r@.drop_last(),
                    b,
                    clean_email_raw(t@.skip(j + 1)),
                ));
                assert(sel == 1 ==> r@ + clean_word_raw(t@.skip(j + 1)) =~= joined_with_byte(
                    r@.drop_last(),
                    b,
                    clean_word_raw(t@.skip(j + 1)),
                ));
            }
            j = j + 1;
        }
    }
    proof {
        if j >= n {
            assert(t@.skip(j as int) =~= Seq::<u8>::empty());
            assert(sel == 0 ==> clean_email_raw(t@) =~= r@);
            assert(sel == 1 ==> clean_word_raw(t@) =~= r@);
        }
    }
    r
}

/// Searching in the suffix finds the same first `>` as in the whole.
proof fn lemma_find_gt_skip(t: Seq<u8>, j: int, g: int)
    requires
        0 <= j < t.len(),
        find_gt(t, j + 1) == Some(g),
    ensures
        find_gt(t.skip(j), 1) == Some(g - j),
    decreases g - j,
{
    lemma_find_gt_bounds(t, j + 1);
    lemma_find_gt_rel(t.skip(j), t, j, 1);
}

proof fn lemma_find_gt_none_skip(t: Seq<u8>, j: int)
    requires
        0 <= j < t.len(),
        find_gt(t, j + 1) is None,
    ensures
        find_gt(t.skip(j), 1) is None,
{
    lemma_find_gt_rel(t.skip(j), t, j, 1);
}

/// `find_gt` in a suffix mirrors `find_gt` in the whole, offset by the cut.
proof fn lemma_find_gt_rel(u: Seq<u8>, t: Seq<u8>, j: int, k: int)
    requires
        0 <= j,
        j + u.len() == t.len(),
        u =~= t.skip(j),
        1 <= k,
    ensures
        match find_gt(u, k) {
            Some(g) => find_gt(t, j + k) == Some(g + j),
            None => find_gt(t, j + k) is None,
        },
    decreases u.len() - k,
{
    if k >= u.len() {
    } else {
        assert(u[k] == t[j + k]);
        if u[k] == 62 {
        } else {
            lemma_find_gt_rel(u, t, j, k + 1);
        }
    }
}

/// Applies the number cleaning, before lower-casing.
fn clean_number_raw_x(t: &Vec<u8>) -> (r: Vec<u8>)
    ensures
        r@ == clean_number_raw(t@),
{
    let n = t.len();
    let mut r: Vec<u8> = Vec::new();
    let mut j: usize = 0;
    proof {
        assert(t@.skip(0) =~= t@);
        assert(Seq::<u8>::empty() + clean_ascii_lower(t@) =~= clean_ascii_lower(t@));
        assert(Seq::<u8>::empty() + clean_link_raw(t@) =~= clean_link_raw(t@));
        assert(Seq::<u8>::empty() + clean_email_raw(t@) =~= clean_email_raw(t@));
        assert(Seq::<u8>::empty() + clean_word_raw(t@) =~= clean_word_raw(t@));
        assert(Seq::<u8>::empty() + clean_number_raw(t@) =~= clean_number_raw(t@));
    }
    while j < n
        invariant
            j <= n,
            n == t@.len(),
            clean_number_raw(t@) == r@ + clean_number_raw(t@.skip(j as int)),
        ensures
            clean_number_raw(t@) == r@,
        decreases n - j,
    {
        let ghost u = t@.skip(j as int);
        proof {
            assert(u[0] == t@[j as int]);
            assert(u.skip(1) =~= t@.skip(j + 1));
        }
        let b = t[j];
        if b == 44 || b == 45 {
            j = j + 1;
        } else if b == 46 {
            proof {
                assert(clean_number_raw(u) =~= Seq::<u8>::empty());
                assert(clean_number_raw(t@) =~= r@);
            }
            break ;
        } else {
            r.push(b);
            proof {
                assert(r@ + clean_number_raw(t@.skip(j + 1)) =~= joined_with_byte(
                    r@.drop_last(),
                    b,
                    clean_number_raw(t@.skip(j + 1)),
                ));
            }
            j = j + 1;
        }
    }
    proof {
        if j >= n {
            assert(t@.skip(j as int) =~= Seq::<u8>::empty());
            assert(clean_number_raw(t@) =~= r@);
        }
    }
    r
}

/// Relies on String::from_utf8: ASCII bytes decode to the string of the same
/// code points.
#[verifier::external_body]
pub(crate) fn ascii_string(b: &Vec<u8>) -> (r: String)
    requires
        forall|i: int| 0 <= i < b@.len() ==> b@[i] < 128,
    ensures
        r@ == b@.map_values(|x: u8| x as char),
{
    match String::from_utf8(b.clone()) {
        Ok(s) => s,
        Err(_) => String::new(),
    }
}

/// Tokenizes `text` into normalized terms: each returned string is the
/// cleaned, lower-cased ASCII form of one emitted token, in text order.
pub fn parse(text: &Vec<u8>) -> (r: Vec<String>)
    ensures
        r@.len() == spec_parse(text@).len(),
        forall|k: int| 0 <= k < r@.len() ==> (#[trigger] r@[k])@ == spec_parse(text@)[k],
{
    let n = text.len();
    let mut r: Vec<String> = Vec::new();
    let ghost mut gtoks: Seq<Seq<u8>> = Seq::empty();
    let mut pos: usize = 0;
    proof {
        assert(spec_tokens(text@, 0) =~= gtoks + spec_tokens(text@, 0));
    }
    while pos < n
        invariant
            pos <= n,
            n == text@.len(),
            spec_tokens(text@, 0) == gtoks + spec_tokens(text@, pos as int),
            r@.len() == gtoks.len(),
            forall|k: int|
                0 <= k < r@.len() ==> (#[trigger] r@[k])@ == bytes_to_chars(gtoks[k]),
        decreases n - pos,
    {
        let (kind, len) = token_at_x(text, pos);
        let ghost rest = spec_tokens(text@, pos + len);
        if 2 <= kind && kind <= 5 {
            let tok = slice_vec(text, pos, pos + len);
            let raw = if kind == 2 {
                clean_link_raw_x(&tok)
            } else if kind == 3 {
                clean_ew_raw_x(&tok, 0)
            } else if kind == 4 {
                clean_number_raw_x(&tok)
            } else {
                clean_ew_raw_x(&tok, 1)
            };
            let cleaned = clean_ascii_lower_x(&raw);
            proof {
                assert(cleaned@ == clean_token(kind as int, text@.subrange(
                    pos as int,
                    pos + len,
                )));
            }
            if cleaned.len() > 0 {
                let ghost c = cleaned@;
                let st = ascii_string(&cleaned);
                r.push(st);
                proof {
                    gtoks = gtoks.push(c);
                    assert(spec_tokens(text@, pos as int) =~= seq![c] + rest);
                    assert(gtoks + rest =~= gtoks.drop_last() + (seq![c] + rest));
                    assert(st@ == bytes_to_chars(c));
                }
            } else {
                proof {
                    assert(spec_tokens(text@, pos as int) =~= rest);
                }
            }
        } else {
            proof {
                assert(spec_tokens(text@, pos as int) =~= rest);
            }
        }
        pos = pos + len;
    }
    proof {
        assert(spec_tokens(text@, pos as int) =~= Seq::<Seq<u8>>::empty());
        assert(spec_tokens(text@, 0) =~= gtoks);
        assert(spec_parse(text@).len() == gtoks.len());
    }
    r
}

/// There are no more tokens than bytes.
pub proof fn lemma_spec_tokens_len_bound(s: Seq<u8>, i: int)
    requires
        0 <= i <= s.len(),
    ensures
        spec_tokens(s, i).len() <= s.len() - i,
    decreases s.len() - i,
{
    if i < s.len() {
        lemma_token_at_bounds(s, i);
        let (kind, len) = token_at(s, i);
        lemma_spec_tokens_len_bound(s, i + len);
    }
}

} // verus!
