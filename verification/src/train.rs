//! The trainer: builds the initial character-level vocabulary from the
//! corpus, then greedily learns merge rules until the target vocabulary size
//! is reached or no eligible pair remains.
//!
//! The frequency of a symbol pair is counted over the distinct words of the
//! corpus, each weighted by its occurrence count, so that a merge iteration
//! costs time proportional to the number of distinct words, not the corpus
//! length.  Ties on the maximal frequency are broken deterministically
//! towards the smallest left ID, then the smallest right ID.  Counts
//! saturate at `usize::MAX`.

use vstd::prelude::*;
use crate::text::marker;
use crate::text::segs_of;
use crate::vocab::idx_of;
use crate::vocab::has_tok;
use crate::tokenizer::MergeRule;
use crate::tokenizer::char_ids_from;
use crate::tokenizer::contains_str;
use crate::TokError;

verus! {

/// The corpus text with every literal space replaced by the space marker.
pub open spec fn proc_text(text: Seq<char>) -> Seq<char> {
    text.map_values(
        |c: char|
            if c == ' ' {
                marker()
            } else {
                c
            },
    )
}

/// Seeds every character of `s[i..]`, in first-occurrence order, skipping
/// those already present.
pub open spec fn seed_chars(s: Seq<char>, i: int, acc: Seq<Seq<char>>) -> Seq<Seq<char>>
    decreases s.len() - i,
{
    if !(0 <= i < s.len()) {
        acc
    } else if has_tok(acc, seq![s[i]]) {
        seed_chars(s, i + 1, acc)
    } else {
        seed_chars(s, i + 1, acc.push(seq![s[i]]))
    }
}

/// Seeds the ASCII characters with code points `code..128`, ascending,
/// skipping those already present.
pub open spec fn seed_ascii(acc: Seq<Seq<char>>, code: int) -> Seq<Seq<char>>
    decreases 128 - code,
{
    if !(0 <= code < 128) {
        acc
    } else if has_tok(acc, seq![code as u8 as char]) {
        seed_ascii(acc, code + 1)
    } else {
        seed_ascii(acc.push(seq![code as u8 as char]), code + 1)
    }
}

/// Seeds one token, skipping it when already present.
pub open spec fn seed_one(acc: Seq<Seq<char>>, t: Seq<char>) -> Seq<Seq<char>> {
    if has_tok(acc, t) {
        acc
    } else {
        acc.push(t)
    }
}

/// Seeds the special tokens `sp[i..]`, in order.
pub open spec fn seed_specials(acc: Seq<Seq<char>>, sp: Seq<Seq<char>>, i: int) -> Seq<Seq<char>>
    decreases sp.len() - i,
{
    if !(0 <= i < sp.len()) {
        acc
    } else {
        seed_specials(seed_one(acc, sp[i]), sp, i + 1)
    }
}

/// The seed vocabulary of a corpus: every character of the space-marker
/// substituted text in first-occurrence order, then the missing ASCII
/// characters, then the space marker, then the special tokens.
pub open spec fn seed_vocab(text: Seq<char>, sp: Seq<Seq<char>>) -> Seq<Seq<char>> {
    seed_specials(
        seed_one(seed_ascii(seed_chars(proc_text(text), 0, seq![]), 0), seq![marker()]),
        sp,
        0,
    )
}

/// One distinct word of the corpus: its current symbol-ID sequence and its
/// occurrence count.
pub struct WordEntry {
    pub syms: Vec<usize>,
    pub count: usize,
}

/// The mathematical view of a word entry.
pub open spec fn we_view(e: WordEntry) -> (Seq<usize>, usize) {
    (e.syms@, e.count)
}

/// The view of a whole word-frequency table.
pub open spec fn tbl_view(tbl: Seq<WordEntry>) -> Seq<(Seq<usize>, usize)> {
    tbl.map_values(|e: WordEntry| we_view(e))
}

/// First table index holding word `w`, or the table length.
pub open spec fn tbl_key_idx(tbl: Seq<(Seq<usize>, usize)>, w: Seq<usize>) -> int
    decreases tbl.len(),
{
    if tbl.len() == 0 {
        0
    } else if tbl[0].0 == w {
        0
    } else {
        1 + tbl_key_idx(tbl.skip(1), w)
    }
}

pub proof fn lemma_tbl_key_idx(tbl: Seq<(Seq<usize>, usize)>, w: Seq<usize>)
    ensures
        0 <= tbl_key_idx(tbl, w) <= tbl.len(),
        tbl_key_idx(tbl, w) < tbl.len() ==> tbl[tbl_key_idx(tbl, w)].0 == w,
        forall|m: int| 0 <= m < tbl_key_idx(tbl, w) ==> tbl[m].0 != w,
    decreases tbl.len(),
{
    if tbl.len() > 0 && tbl[0].0 != w {
        lemma_tbl_key_idx(tbl.skip(1), w);
        assert forall|m: int| 0 <= m < tbl_key_idx(tbl, w) implies tbl[m].0 != w by {
            if m > 0 {
                assert(tbl.skip(1)[m - 1] == tbl[m]);
            }
        }
        if tbl_key_idx(tbl, w) < tbl.len() {
            assert(tbl.skip(1)[tbl_key_idx(tbl, w) - 1] == tbl[tbl_key_idx(tbl, w)]);
        }
    }
}

/// Accounts one occurrence of word `w`: bumps its count or appends a new
/// entry with count one.
pub open spec fn add_word(tbl: Seq<(Seq<usize>, usize)>, w: Seq<usize>) -> Seq<
    (Seq<usize>, usize),
> {
    let k = tbl_key_idx(tbl, w);
    if k < tbl.len() {
        tbl.update(k, (w, ((tbl[k].1 + 1) as usize)))
    } else {
        tbl.push((w, 1))
    }
}

/// Builds the word-frequency table over the segments `segs[i..]`: each
/// segment is spelled as single-character symbol IDs and counted; a segment
/// character without a vocabulary entry fails with `NotFound`.
pub open spec fn build_tbl(
    v: Seq<Seq<char>>,
    segs: Seq<Seq<char>>,
    i: int,
    tbl: Seq<(Seq<usize>, usize)>,
) -> Result<Seq<(Seq<usize>, usize)>, TokError>
    decreases segs.len() - i,
{
    if !(0 <= i < segs.len()) {
        Ok(tbl)
    } else {
        match char_ids_from(v, segs[i], 0) {
            Err(e) => Err(e),
            Ok(syms) => build_tbl(v, segs, i + 1, add_word(tbl, syms)),
        }
    }
}

/// Saturating addition at `usize::MAX`.
pub open spec fn sat_add(x: int, y: int) -> int {
    if x + y > usize::MAX {
        usize::MAX as int
    } else {
        x + y
    }
}

/// Saturating multiplication at `usize::MAX`.
pub open spec fn sat_mul(x: int, y: int) -> int {
    if x * y > usize::MAX {
        usize::MAX as int
    } else {
        x * y
    }
}

/// The number of positions `q >= i` where `s[q] == a` and `s[q+1] == b`.
pub open spec fn occ_from(s: Seq<usize>, a: usize, b: usize, i: int) -> int
    decreases s.len() - i,
{
    if !(0 <= i) || i + 1 >= s.len() {
        0
    } else {
        (if s[i] == a && s[i + 1] == b {
            1int
        } else {
            0
        }) + occ_from(s, a, b, i + 1)
    }
}

pub proof fn lemma_occ_nonneg(s: Seq<usize>, a: usize, b: usize, i: int)
    ensures
        0 <= occ_from(s, a, b, i),
    decreases s.len() - i,
{
    if 0 <= i && i + 1 < s.len() {
        lemma_occ_nonneg(s, a, b, i + 1);
    }
}

pub proof fn lemma_occ_pos(s: Seq<usize>, a: usize, b: usize, i: int)
    requires
        occ_from(s, a, b, i) > 0,
    ensures
        exists|q: int| 0 <= q && q + 1 < s.len() && #[trigger] s[q] == a && s[q + 1] == b,
    decreases s.len() - i,
{
    if 0 <= i && i + 1 < s.len() {
        if s[i] == a && s[i + 1] == b {
            assert(s[i] == a && s[i + 1] == b);
        } else {
            lemma_occ_pos(s, a, b, i + 1);
        }
    }
}

/// The weighted frequency of pair `(a, b)` over the table entries `e..`,
/// accumulated with saturating arithmetic.
pub open spec fn pc_from(
    tbl: Seq<(Seq<usize>, usize)>,
    a: usize,
    b: usize,
    e: int,
    acc: int,
) -> int
    decreases tbl.len() - e,
{
    if !(0 <= e < tbl.len()) {
        acc
    } else {
        pc_from(tbl, a, b, e + 1, sat_add(acc, sat_mul(tbl[e].1 as int, occ_from(tbl[e].0, a, b, 0))))
    }
}

/// The weighted frequency of pair `(a, b)` over the whole table.
pub open spec fn pair_count(tbl: Seq<(Seq<usize>, usize)>, a: usize, b: usize) -> int {
    pc_from(tbl, a, b, 0, 0)
}

/// If no entry from `e` on holds the pair, the accumulated count stays.
pub proof fn lemma_pc_const(tbl: Seq<(Seq<usize>, usize)>, a: usize, b: usize, e: int, acc: int)
    requires
        acc <= usize::MAX,
        forall|m: int| e <= m < tbl.len() ==> occ_from((#[trigger] tbl[m]).0, a, b, 0) == 0,
    ensures
        pc_from(tbl, a, b, e, acc) == acc,
    decreases tbl.len() - e,
{
    if 0 <= e < tbl.len() {
        assert(occ_from(tbl[e].0, a, b, 0) == 0);
        assert(sat_mul(tbl[e].1 as int, 0) == 0) by {
            assert(tbl[e].1 as int * 0 == 0);
        }
        lemma_pc_const(tbl, a, b, e + 1, acc);
    }
}

/// A positive pair count means the pair occurs adjacently in some entry.
pub proof fn lemma_pair_count_pos(tbl: Seq<(Seq<usize>, usize)>, a: usize, b: usize)
    requires
        pair_count(tbl, a, b) > 0,
    ensures
        exists|m: int|
            0 <= m < tbl.len() && occ_from((#[trigger] tbl[m]).0, a, b, 0) > 0,
{
    if !(exists|m: int| 0 <= m < tbl.len() && occ_from((#[trigger] tbl[m]).0, a, b, 0) > 0) {
        assert forall|m: int| 0 <= m < tbl.len() implies occ_from(
            (#[trigger] tbl[m]).0,
            a,
            b,
            0,
        ) == 0 by {
            lemma_occ_nonneg(tbl[m].0, a, b, 0);
        }
        lemma_pc_const(tbl, a, b, 0, 0);
    }
}

/// The best-pair fold: walks every ID pair `(a, b)` with `a, b < n` in
/// ascending lexicographic order and keeps the first pair that strictly
/// exceeds the best count so far; pairs with a special token on either side
/// are ineligible.  Starting from count zero this selects the
/// lexicographically smallest pair among those of maximal positive count.
pub open spec fn best_from(
    v: Seq<Seq<char>>,
    sp: Seq<Seq<char>>,
    tbl: Seq<(Seq<usize>, usize)>,
    n: int,
    a: int,
    b: int,
    best: Option<(usize, usize)>,
    bc: int,
) -> (Option<(usize, usize)>, int)
    decreases n - a, n - b,
{
    if a < 0 || b < 0 || a >= n || n > usize::MAX {
        (best, bc)
    } else if b >= n {
        best_from(v, sp, tbl, n, a + 1, 0, best, bc)
    } else {
        let c = pair_count(tbl, a as usize, b as usize);
        let elig = !has_tok(sp, v[a]) && !has_tok(sp, v[b]);
        if elig && c > bc {
            best_from(v, sp, tbl, n, a, b + 1, Some((a as usize, b as usize)), c)
        } else {
            best_from(v, sp, tbl, n, a, b + 1, best, bc)
        }
    }
}

/// The selected merge pair, if any eligible pair occurs at all.
pub open spec fn best_pair(
    v: Seq<Seq<char>>,
    sp: Seq<Seq<char>>,
    tbl: Seq<(Seq<usize>, usize)>,
) -> Option<(usize, usize)> {
    best_from(v, sp, tbl, v.len() as int, 0, 0, Option::None, 0).0
}

/// The fold keeps the invariant that a selected pair is in range and has a
/// count both positive and exactly the accumulated best count.
pub proof fn lemma_best_from(
    v: Seq<Seq<char>>,
    sp: Seq<Seq<char>>,
    tbl: Seq<(Seq<usize>, usize)>,
    n: int,
    a: int,
    b: int,
    best: Option<(usize, usize)>,
    bc: int,
)
    requires
        n <= usize::MAX,
        match best {
            Option::Some(p) => p.0 < n && p.1 < n && bc == pair_count(tbl, p.0, p.1) && bc > 0,
            Option::None => bc == 0,
        },
    ensures
        match best_from(v, sp, tbl, n, a, b, best, bc).0 {
            Option::Some(p) => p.0 < n && p.1 < n && best_from(v, sp, tbl, n, a, b, best, bc).1
                == pair_count(tbl, p.0, p.1) && pair_count(tbl, p.0, p.1) > 0,
            Option::None => best_from(v, sp, tbl, n, a, b, best, bc).1 == 0,
        },
    decreases n - a, n - b,
{
    if a < 0 || b < 0 || a >= n || n > usize::MAX {
    } else if b >= n {
        lemma_best_from(v, sp, tbl, n, a + 1, 0, best, bc);
    } else {
        let c = pair_count(tbl, a as usize, b as usize);
        let elig = !has_tok(sp, v[a]) && !has_tok(sp, v[b]);
        if elig && c > bc {
            lemma_best_from(v, sp, tbl, n, a, b + 1, Option::Some((a as usize, b as usize)), c);
        } else {
            lemma_best_from(v, sp, tbl, n, a, b + 1, best, bc);
        }
    }
}

/// Replaces every non-overlapping left-to-right occurrence of the adjacent
/// ID pair `(a, b)` with `m`.
pub open spec fn rp_ids(a: usize, b: usize, m: usize, s: Seq<usize>) -> Seq<usize>
    decreases s.len(),
{
    if s.len() >= 2 && s[0] == a && s[1] == b {
        seq![m] + rp_ids(a, b, m, s.skip(2))
    } else if s.len() >= 1 {
        seq![s[0]] + rp_ids(a, b, m, s.skip(1))
    } else {
        seq![]
    }
}

pub proof fn lemma_rp_ids_le(a: usize, b: usize, m: usize, s: Seq<usize>)
    ensures
        rp_ids(a, b, m, s).len() <= s.len(),
        (exists|q: int| 0 <= q && q + 1 < s.len() && #[trigger] s[q] == a && s[q + 1] == b)
            ==> rp_ids(a, b, m, s).len() < s.len(),
    decreases s.len(),
{
    if s.len() >= 2 && s[0] == a && s[1] == b {
        lemma_rp_ids_le(a, b, m, s.skip(2));
    } else if s.len() >= 1 {
        lemma_rp_ids_le(a, b, m, s.skip(1));
        if exists|q: int| 0 <= q && q + 1 < s.len() && #[trigger] s[q] == a && s[q + 1] == b {
            let q = choose|q: int|
                0 <= q && q + 1 < s.len() && #[trigger] s[q] == a && s[q + 1] == b;
            assert(q >= 1);
            assert(s.skip(1)[q - 1] == s[q] && s.skip(1)[q] == s[q + 1]);
            assert(exists|r: int|
                0 <= r && r + 1 < s.skip(1).len() && #[trigger] s.skip(1)[r] == a && s.skip(1)[r
                    + 1] == b);
        }
    }
}

/// Rewrites every word of the table with the new merge applied; counts are
/// preserved.
pub open spec fn rw_tbl(
    tbl: Seq<(Seq<usize>, usize)>,
    a: usize,
    b: usize,
    m: usize,
) -> Seq<(Seq<usize>, usize)> {
    tbl.map_values(|e: (Seq<usize>, usize)| (rp_ids(a, b, m, e.0), e.1))
}

/// The total number of symbols across all table entries.
pub open spec fn ts_from(tbl: Seq<(Seq<usize>, usize)>, i: int) -> int
    decreases tbl.len() - i,
{
    if !(0 <= i < tbl.len()) {
        0
    } else {
        tbl[i].0.len() + ts_from(tbl, i + 1)
    }
}

pub proof fn lemma_ts_nonneg(tbl: Seq<(Seq<usize>, usize)>, i: int)
    ensures
        ts_from(tbl, i) >= 0,
    decreases tbl.len() - i,
{
    if 0 <= i < tbl.len() {
        lemma_ts_nonneg(tbl, i + 1);
    }
}

/// Rewriting never grows the table, and strictly shrinks it when the pair
/// occurs adjacently in some entry at or after `i`.
pub proof fn lemma_rw_ts(tbl: Seq<(Seq<usize>, usize)>, a: usize, b: usize, m: usize, i: int)
    requires
        0 <= i,
    ensures
        ts_from(rw_tbl(tbl, a, b, m), i) <= ts_from(tbl, i),
        (exists|e: int|
            i <= e < tbl.len() && occ_from((#[trigger] tbl[e]).0, a, b, 0) > 0) ==> ts_from(
            rw_tbl(tbl, a, b, m),
            i,
        ) < ts_from(tbl, i),
    decreases tbl.len() - i,
{
    if 0 <= i < tbl.len() {
        lemma_rw_ts(tbl, a, b, m, i + 1);
        lemma_rp_ids_le(a, b, m, tbl[i].0);
        assert(rw_tbl(tbl, a, b, m).len() == tbl.len());
        assert(rw_tbl(tbl, a, b, m)[i] == (rp_ids(a, b, m, tbl[i].0), tbl[i].1));
        if exists|e: int| i <= e < tbl.len() && occ_from((#[trigger] tbl[e]).0, a, b, 0) > 0 {
            let e = choose|e: int|
                i <= e < tbl.len() && occ_from((#[trigger] tbl[e]).0, a, b, 0) > 0;
            if e == i {
                lemma_occ_pos(tbl[i].0, a, b, 0);
                assert(rp_ids(a, b, m, tbl[i].0).len() < tbl[i].0.len());
                assert(ts_from(rw_tbl(tbl, a, b, m), i) == rp_ids(a, b, m, tbl[i].0).len()
                    + ts_from(rw_tbl(tbl, a, b, m), i + 1));
                assert(ts_from(rw_tbl(tbl, a, b, m), i) < ts_from(tbl, i));
            } else {
                assert(i + 1 <= e < tbl.len() && occ_from((#[trigger] tbl[e]).0, a, b, 0) > 0);
                assert(ts_from(rw_tbl(tbl, a, b, m), i + 1) < ts_from(tbl, i + 1));
                assert(ts_from(rw_tbl(tbl, a, b, m), i) < ts_from(tbl, i));
            }
        }
    } else {
        assert(ts_from(rw_tbl(tbl, a, b, m), i) == 0);
    }
}

/// The training loop: while the vocabulary is below the target size and an
/// eligible pair exists, merge the selected pair, record the rule in both
/// representations, and rewrite the word table.
pub open spec fn train_loop(
    v: Seq<Seq<char>>,
    sp: Seq<Seq<char>>,
    tbl: Seq<(Seq<usize>, usize)>,
    merges: Seq<MergeRule>,
    ranks: Seq<(Seq<char>, Seq<char>)>,
    target: usize,
) -> (Seq<Seq<char>>, Seq<MergeRule>, Seq<(Seq<char>, Seq<char>)>)
    decreases ts_from(tbl, 0),
    via train_loop_dec
{
    if v.len() >= target {
        (v, merges, ranks)
    } else {
        match best_pair(v, sp, tbl) {
            Option::None => (v, merges, ranks),
            Option::Some(p) => {
                let (a, b) = p;
                if !(a < v.len() && b < v.len()) {
                    (v, merges, ranks)
                } else {
                    let nt = v[a as int] + v[b as int];
                    let mid: usize = if has_tok(v, nt) {
                        idx_of(v, nt) as usize
                    } else {
                        v.len() as usize
                    };
                    let v2 = if has_tok(v, nt) {
                        v
                    } else {
                        v.push(nt)
                    };
                    train_loop(
                        v2,
                        sp,
                        rw_tbl(tbl, a, b, mid),
                        merges.push(MergeRule { left: a, right: b, merged: mid }),
                        ranks.push((v[a as int], v[b as int])),
                        target,
                    )
                }
            },
        }
    }
}

#[via_fn]
proof fn train_loop_dec(
    v: Seq<Seq<char>>,
    sp: Seq<Seq<char>>,
    tbl: Seq<(Seq<usize>, usize)>,
    merges: Seq<MergeRule>,
    ranks: Seq<(Seq<char>, Seq<char>)>,
    target: usize,
) {
    lemma_ts_nonneg(tbl, 0);
    if v.len() < target {
        match best_pair(v, sp, tbl) {
            Option::None => {},
            Option::Some(p) => {
                let (a, b) = p;
                if a < v.len() && b < v.len() {
                    lemma_best_from(v, sp, tbl, v.len() as int, 0, 0, Option::None, 0);
                    assert(pair_count(tbl, a, b) > 0);
                    lemma_pair_count_pos(tbl, a, b);
                    let nt = v[a as int] + v[b as int];
                    let mid: usize = if has_tok(v, nt) {
                        idx_of(v, nt) as usize
                    } else {
                        v.len() as usize
                    };
                    let e = choose|m: int|
                        0 <= m < tbl.len() && occ_from((#[trigger] tbl[m]).0, a, b, 0) > 0;
                    lemma_rw_ts(tbl, a, b, mid, 0);
                    lemma_ts_nonneg(rw_tbl(tbl, a, b, mid), 0);
                }
            },
        }
    }
}

/// The whole training computation: seed the vocabulary, build the word
/// table over the encoder's segments, then run the merge loop.  An empty
/// corpus, or an empty special token, is invalid input.
pub open spec fn train_spec(text: Seq<char>, target: usize, sp: Seq<Seq<char>>) -> Result<
    (Seq<Seq<char>>, Seq<MergeRule>, Seq<(Seq<char>, Seq<char>)>),
    TokError,
> {
    if text.len() == 0 {
        Err(TokError::InvalidInput)
    } else if exists|k: int| 0 <= k < sp.len() && (#[trigger] sp[k]).len() == 0 {
        Err(TokError::InvalidInput)
    } else {
        let v0 = seed_vocab(text, sp);
        match build_tbl(v0, segs_of(text), 0, seq![]) {
            Err(e) => Err(e),
            Ok(tbl) => Ok(train_loop(v0, sp, tbl, seq![], seq![], target)),
        }
    }
}

/// Element-wise equality of two symbol-ID sequences.
fn eq_ids(a: &Vec<usize>, b: &Vec<usize>) -> (r: bool)
    ensures
        r == (a@ == b@),
{
    if a.len() != b.len() {
        proof {
            assert(a@ != b@) by {
                assert(a@.len() != b@.len());
            }
        }
        return false;
    }
    let mut i: usize = 0;
    while i < a.len()
        invariant
            i <= a.len(),
            a@.len() == b@.len(),
            forall|j: int| 0 <= j < i ==> a@[j] == b@[j],
        decreases a.len() - i,
    {
        if a[i] != b[i] {
            return false;
        }
        i = i + 1;
    }
    proof {
        assert(a@ =~= b@);
    }
    true
}

/// The single-character symbol IDs of one segment.
fn char_ids_vec(voc: &crate::vocab::Vocabulary, seg: &Vec<char>) -> (r: Result<Vec<usize>, TokError>)
    ensures
        match r {
            Ok(v) => char_ids_from(voc.toks(), seg@, 0) == Ok::<Seq<usize>, TokError>(v@),
            Err(e) => char_ids_from(voc.toks(), seg@, 0) == Err::<Seq<usize>, TokError>(e),
        },
{
    let mut out: Vec<usize> = Vec::new();
    let mut i: usize = 0;
    proof {
        assert(out@ + Seq::<usize>::empty() =~= out@);
    }
    while i < seg.len()
        invariant
            i <= seg@.len(),
            char_ids_from(voc.toks(), seg@, 0) == crate::tokenizer::cat_ids(
                out@,
                char_ids_from(voc.toks(), seg@, i as int),
            ),
        decreases seg@.len() - i,
    {
        let mut single: Vec<char> = Vec::new();
        single.push(seg[i]);
        proof {
            assert(single@ =~= seq![seg@[i as int]]);
        }
        let ghost pre = out@;
        match voc.id_of(&single) {
            Ok(id) => {
                out.push(id);
                proof {
                    crate::vocab::lemma_idx_of(voc.toks(), single@);
                    assert(char_ids_from(voc.toks(), seg@, i as int) == crate::tokenizer::cat_ids(
                        seq![id],
                        char_ids_from(voc.toks(), seg@, i + 1),
                    ));
                    crate::tokenizer::lemma_cat_ids_assoc(
                        pre,
                        seq![id],
                        char_ids_from(voc.toks(), seg@, i + 1),
                    );
                    assert(pre + seq![id] =~= out@);
                }
            },
            Err(_) => {
                proof {
                    crate::vocab::lemma_idx_of(voc.toks(), single@);
                    assert(char_ids_from(voc.toks(), seg@, i as int) == Err::<Seq<usize>, TokError>(
                        TokError::NotFound,
                    ));
                }
                return Err(TokError::NotFound);
            },
        }
        i = i + 1;
    }
    proof {
        assert(char_ids_from(voc.toks(), seg@, seg@.len() as int) == Ok::<Seq<usize>, TokError>(
            seq![],
        ));
        assert(out@ + Seq::<usize>::empty() =~= out@);
    }
    Ok(out)
}

/// First table entry holding word `w`, as an index.
fn tbl_find(tbl: &Vec<WordEntry>, w: &Vec<usize>) -> (k: usize)
    ensures
        k == tbl_key_idx(tbl_view(tbl@), w@),
{
    let ghost tv = tbl_view(tbl@);
    proof {
        lemma_tbl_key_idx(tv, w@);
    }
    let mut k: usize = 0;
    while k < tbl.len()
        invariant
            k <= tbl@.len(),
            tv == tbl_view(tbl@),
            tv.len() == tbl@.len(),
            forall|m: int| 0 <= m < k ==> (#[trigger] tv[m]).0 != w@,
        decreases tbl@.len() - k,
    {
        proof {
            assert(tv[k as int] == we_view(tbl@[k as int]));
        }
        if eq_ids(&tbl[k].syms, w) {
            return k;
        }
        k = k + 1;
    }
    k
}

/// The number of adjacent occurrences of the pair in one word.
fn occ_count(s: &Vec<usize>, a: usize, b: usize) -> (r: usize)
    ensures
        r as int == occ_from(s@, a, b, 0),
{
    let n = s.len();
    let mut cnt: usize = 0;
    let mut i: usize = 0;
    while i < n
        invariant
            n == s@.len(),
            i <= n,
            cnt <= i,
            cnt as int + occ_from(s@, a, b, i as int) == occ_from(s@, a, b, 0),
        decreases n - i,
    {
        if i + 1 < n && s[i] == a && s[i + 1] == b {
            cnt = cnt + 1;
        }
        i = i + 1;
    }
    cnt
}

/// The weighted, saturating frequency of the pair over the whole table.
fn pair_count_of(tbl: &Vec<WordEntry>, a: usize, b: usize) -> (r: usize)
    ensures
        r as int == pair_count(tbl_view(tbl@), a, b),
{
    let ghost tv = tbl_view(tbl@);
    let mut sum: usize = 0;
    let mut e: usize = 0;
    while e < tbl.len()
        invariant
            e <= tbl@.len(),
            tv == tbl_view(tbl@),
            tv.len() == tbl@.len(),
            pc_from(tv, a, b, 0, 0) == pc_from(tv, a, b, e as int, sum as int),
        decreases tbl@.len() - e,
    {
        proof {
            assert(tv[e as int] == we_view(tbl@[e as int]));
        }
        let o = occ_count(&tbl[e].syms, a, b);
        let prod = match tbl[e].count.checked_mul(o) {
            Some(p) => p,
            None => usize::MAX,
        };
        proof {
            assert(prod as int == sat_mul(tv[e as int].1 as int, occ_from(tv[e as int].0, a, b, 0)));
        }
        sum = sum.saturating_add(prod);
        e = e + 1;
    }
    sum
}

impl crate::tokenizer::BPETokenizer {
    /// The most frequent eligible adjacent symbol pair over the word table,
    /// weighted by word counts; pairs with a special token on either side are
    /// excluded.  Ties are broken towards the smallest left ID, then the
    /// smallest right ID.  `None` when no eligible pair occurs.
    pub fn find_freq_pair(&self, tbl: &Vec<WordEntry>) -> (r: Option<(usize, usize)>)
        ensures
            r == best_pair(self.toks(), self.special_toks(), tbl_view(tbl@)),
            match r {
                Some(p) => p.0 < self.toks().len() && p.1 < self.toks().len() && pair_count(
                    tbl_view(tbl@),
                    p.0,
                    p.1,
                ) > 0,
                None => true,
            },
    {
        let ghost tv = tbl_view(tbl@);
        let ghost sp = self.special_toks();
        let ghost v = self.toks();
        let n = self.vocab.size();
        let mut cur: Option<(usize, usize)> = None;
        let mut curc: usize = 0;
        let mut a: usize = 0;
        while a < n
            invariant
                a <= n,
                n == v.len(),
                tv == tbl_view(tbl@),
                sp == self.special_toks(),
                v == self.toks(),
                best_from(v, sp, tv, n as int, 0, 0, Option::None, 0) == best_from(
                    v,
                    sp,
                    tv,
                    n as int,
                    a as int,
                    0,
                    cur,
                    curc as int,
                ),
                match cur {
                    Some(p) => p.0 < n && p.1 < n && curc as int == pair_count(tv, p.0, p.1)
                        && curc > 0,
                    None => curc == 0,
                },
            decreases n - a,
        {
            let tok_a = match self.vocab.token_of(a) {
                Ok(t) => t,
                Err(_) => {
                    proof {
                        assert(false);
                    }
                    return None;
                },
            };
            let a_special = contains_str(&self.specials, &tok_a);
            proof {
                assert(self.special_toks().contains(tok_a@) == has_tok(sp, v[a as int]));
            }
            let mut b: usize = 0;
            while b < n
                invariant
                    a < n,
                    b <= n,
                    n == v.len(),
                    tv == tbl_view(tbl@),
                    sp == self.special_toks(),
                    v == self.toks(),
                    tok_a@ == v[a as int],
                    a_special == has_tok(sp, v[a as int]),
                    best_from(v, sp, tv, n as int, 0, 0, Option::None, 0) == best_from(
                        v,
                        sp,
                        tv,
                        n as int,
                        a as int,
                        b as int,
                        cur,
                        curc as int,
                    ),
                    match cur {
                        Some(p) => p.0 < n && p.1 < n && curc as int == pair_count(tv, p.0, p.1)
                            && curc > 0,
                        None => curc == 0,
                    },
                decreases n - b,
            {
                let c = pair_count_of(tbl, a, b);
                let elig = if a_special {
                    false
                } else {
                    let tok_b = match self.vocab.token_of(b) {
                        Ok(t) => t,
                        Err(_) => {
                            proof {
                                assert(false);
                            }
                            return None;
                        },
                    };
                    let r = !contains_str(&self.specials, &tok_b);
                    proof {
                        assert(self.special_toks().contains(tok_b@) == has_tok(sp, v[b as int]));
                    }
                    r
                };
                proof {
                    assert(elig == (!has_tok(sp, v[a as int]) && !has_tok(sp, v[b as int])));
                }
                if elig && c > curc {
                    cur = Some((a, b));
                    curc = c;
                }
                b = b + 1;
            }
            a = a + 1;
        }
        cur
    }

    /// Replaces every non-overlapping left-to-right occurrence of the pair
    /// in a symbol-ID sequence with the new ID.
    pub fn replace_pair(&self, token_ids: &Vec<usize>, pair: (usize, usize), new_id: usize) -> (r:
        Vec<usize>)
        ensures
            r@ == rp_ids(pair.0, pair.1, new_id, token_ids@),
    {
        let (a, b) = pair;
        let mut out: Vec<usize> = Vec::new();
        let mut i: usize = 0;
        proof {
            assert(token_ids@.skip(0) =~= token_ids@);
            assert(out@ + rp_ids(a, b, new_id, token_ids@) =~= rp_ids(a, b, new_id, token_ids@));
        }
        while i < token_ids.len()
            invariant
                i <= token_ids@.len(),
                rp_ids(a, b, new_id, token_ids@) == out@ + rp_ids(
                    a,
                    b,
                    new_id,
                    token_ids@.skip(i as int),
                ),
            decreases token_ids@.len() - i,
        {
            let ghost rem = token_ids@.skip(i as int);
            let ghost out0 = out@;
            proof {
                assert(rem[0] == token_ids@[i as int]);
            }
            if i + 1 < token_ids.len() && token_ids[i] == a && token_ids[i + 1] == b {
                proof {
                    assert(rem[1] == token_ids@[i + 1]);
                }
                out.push(new_id);
                proof {
                    assert(token_ids@.skip(i as int).skip(2) =~= token_ids@.skip(i + 2));
                    assert(out0 + rp_ids(a, b, new_id, rem) =~= out@ + rp_ids(
                        a,
                        b,
                        new_id,
                        token_ids@.skip(i + 2),
                    ));
                }
                i = i + 2;
            } else {
                proof {
                    if rem.len() >= 2 {
                        assert(rem[1] == token_ids@[i + 1]);
                    }
                }
                out.push(token_ids[i]);
                proof {
                    assert(token_ids@.skip(i as int).skip(1) =~= token_ids@.skip(i + 1));
                    assert(out0 + rp_ids(a, b, new_id, rem) =~= out@ + rp_ids(
                        a,
                        b,
                        new_id,
                        token_ids@.skip(i + 1),
                    ));
                }
                i = i + 1;
            }
        }
        proof {
            assert(token_ids@.skip(token_ids@.len() as int) =~= Seq::<usize>::empty());
            assert(out@ + rp_ids(a, b, new_id, Seq::<usize>::empty()) =~= out@);
        }
        out
    }
}

impl crate::tokenizer::BPETokenizer {
    /// Trains the tokenizer on a corpus: resets it, seeds the character
    /// vocabulary, then greedily learns merge rules until the target
    /// vocabulary size is reached or no eligible pair remains (which is an
    /// early stop, not an error).  Each learned rule is recorded both in the
    /// id-pair table and in the rank list, in learning order.  An empty
    /// corpus, or an empty special token, fails with `InvalidInput`.
    #[verifier::rlimit(100)]
    pub fn train(&mut self, text: &str, vocab_size: usize, allowed_special: Vec<String>) -> (r:
        Result<(), TokError>)
        ensures
            match r {
                Ok(()) => {
                    &&& train_spec(text@, vocab_size, allowed_special.deep_view()) == Ok::<
                        (Seq<Seq<char>>, Seq<MergeRule>, Seq<(Seq<char>, Seq<char>)>),
                        TokError,
                    >((final(self).toks(), final(self).merges@, final(self).rank_pairs()))
                    &&& final(self).special_toks() == allowed_special.deep_view()
                    &&& final(self).wf()
                    &&& final(self).merges_sound()
                    &&& final(self).ranks_aligned()
                    &&& (vocab_size <= seed_vocab(text@, allowed_special.deep_view()).len()
                        ==> final(self).merges@.len() == 0)
                    &&& (final(self).toks().len() <= vocab_size || final(self).toks().len()
                        == seed_vocab(text@, allowed_special.deep_view()).len())
                },
                Err(e) => train_spec(text@, vocab_size, allowed_special.deep_view()) == Err::<
                    (Seq<Seq<char>>, Seq<MergeRule>, Seq<(Seq<char>, Seq<char>)>),
                    TokError,
                >(e),
            },
            old(self).wf() ==> final(self).wf(),
    {
        let tv = crate::text::to_chars(text);
        if tv.len() == 0 {
            return Err(TokError::InvalidInput);
        }
        // Convert the special tokens; an empty one is invalid input.
        let ghost spdv = allowed_special.deep_view();
        let mut sp: Vec<Vec<char>> = Vec::new();
        let mut k: usize = 0;
        while k < allowed_special.len()
            invariant
                k <= allowed_special@.len(),
                spdv == allowed_special.deep_view(),
                spdv.len() == allowed_special@.len(),
                sp.deep_view() =~~= spdv.take(k as int),
                forall|m: int| 0 <= m < k ==> (#[trigger] spdv[m]).len() > 0,
            decreases allowed_special@.len() - k,
        {
            let ghost before = sp.deep_view();
            let cs = crate::text::to_chars(allowed_special[k].as_str());
            if cs.len() == 0 {
                proof {
                    assert(spdv[k as int] == allowed_special@[k as int]@);
                }
                return Err(TokError::InvalidInput);
            }
            sp.push(cs);
            proof {
                assert(spdv[k as int] == allowed_special@[k as int]@);
                assert(sp.deep_view() =~~= before.push(spdv[k as int]));
                assert(sp.deep_view() =~~= spdv.take(k + 1));
            }
            k = k + 1;
        }
        proof {
            assert(sp.deep_view() =~~= spdv);
            assert(!(exists|m: int| 0 <= m < spdv.len() && (#[trigger] spdv[m]).len() == 0));
        }
        // Reset the tokenizer.
        self.vocab = crate::vocab::Vocabulary::new();
        self.merges = Vec::new();
        self.ranks = Vec::new();
        self.specials = sp;
        proof {
            assert(self.special_toks() =~~= spdv);
            assert(self.rank_pairs() =~~= Seq::<(Seq<char>, Seq<char>)>::empty());
        }
        // Space-marker substitution.
        let mut proc: Vec<char> = Vec::new();
        let mut i: usize = 0;
        while i < tv.len()
            invariant
                i <= tv@.len(),
                proc@ =~= proc_text(tv@).take(i as int),
            decreases tv@.len() - i,
        {
            proof {
                assert(proc_text(tv@)[i as int] == (if tv@[i as int] == ' ' {
                    marker()
                } else {
                    tv@[i as int]
                }));
            }
            if tv[i] == ' ' {
                proc.push(crate::text::marker_char());
            } else {
                proc.push(tv[i]);
            }
            proof {
                assert(proc_text(tv@).take(i + 1) =~= proc_text(tv@).take(i as int).push(
                    proc_text(tv@)[i as int],
                ));
            }
            i = i + 1;
        }
        proof {
            assert(proc_text(tv@).take(tv@.len() as int) =~= proc_text(tv@));
            assert(proc@ == proc_text(tv@));
        }
        // Seed: every corpus character, in first-occurrence order.
        let mut i2: usize = 0;
        while i2 < proc.len()
            invariant
                i2 <= proc@.len(),
                self.vocab.wf(),
                seed_chars(proc@, 0, Seq::<Seq<char>>::empty()) == seed_chars(
                    proc@,
                    i2 as int,
                    self.vocab.toks(),
                ),
                self.merges@ =~= Seq::<MergeRule>::empty(),
                self.rank_pairs() =~~= Seq::<(Seq<char>, Seq<char>)>::empty(),
                self.special_toks() =~~= spdv,
            decreases proc@.len() - i2,
        {
            let mut single: Vec<char> = Vec::new();
            single.push(proc[i2]);
            proof {
                assert(single@ =~= seq![proc@[i2 as int]]);
            }
            if !self.vocab.contains_tok(&single) {
                let sz = self.vocab.size();
                match self.vocab.insert(sz, single) {
                    Ok(()) => {},
                    Err(_) => {
                        proof {
                            assert(false);
                        }
                        return Err(TokError::InvalidData);
                    },
                }
            }
            i2 = i2 + 1;
        }
        let ghost v_chars = self.vocab.toks();
        proof {
            assert(v_chars == seed_chars(proc@, 0, Seq::<Seq<char>>::empty()));
        }
        // Seed: the full ASCII range.
        let mut code: usize = 0;
        while code < 128
            invariant
                code <= 128,
                self.vocab.wf(),
                seed_ascii(v_chars, 0) == seed_ascii(self.vocab.toks(), code as int),
                self.merges@ =~= Seq::<MergeRule>::empty(),
                self.rank_pairs() =~~= Seq::<(Seq<char>, Seq<char>)>::empty(),
                self.special_toks() =~~= spdv,
            decreases 128 - code,
        {
            let c = (code as u8) as char;
            let mut single: Vec<char> = Vec::new();
            single.push(c);
            proof {
                assert(single@ =~= seq![(code as int) as u8 as char]);
            }
            if !self.vocab.contains_tok(&single) {
                let sz = self.vocab.size();
                match self.vocab.insert(sz, single) {
                    Ok(()) => {},
                    Err(_) => {
                        proof {
                            assert(false);
                        }
                        return Err(TokError::InvalidData);
                    },
                }
            }
            code = code + 1;
        }
        let ghost v_ascii = self.vocab.toks();
        proof {
            assert(v_ascii == seed_ascii(v_chars, 0));
        }
        // Seed: the space marker.
        let mut mk: Vec<char> = Vec::new();
        mk.push(crate::text::marker_char());
        proof {
            assert(mk@ =~= seq![marker()]);
        }
        if !self.vocab.contains_tok(&mk) {
            let sz = self.vocab.size();
            match self.vocab.insert(sz, mk) {
                Ok(()) => {},
                Err(_) => {
                    proof {
                        assert(false);
                    }
                    return Err(TokError::InvalidData);
                },
            }
        }
        let ghost v_marker = self.vocab.toks();
        proof {
            assert(v_marker == seed_one(v_ascii, seq![marker()]));
        }
        // Seed: the special tokens, each one atomic entry.
        let mut s3: usize = 0;
        while s3 < self.specials.len()
            invariant
                s3 <= self.specials@.len(),
                self.vocab.wf(),
                seed_specials(v_marker, spdv, 0) == seed_specials(
                    self.vocab.toks(),
                    spdv,
                    s3 as int,
                ),
                self.merges@ =~= Seq::<MergeRule>::empty(),
                self.rank_pairs() =~~= Seq::<(Seq<char>, Seq<char>)>::empty(),
                self.special_toks() =~~= spdv,
                spdv.len() == self.specials@.len(),
                forall|m: int| 0 <= m < spdv.len() ==> (#[trigger] spdv[m]).len() > 0,
            decreases self.specials@.len() - s3,
        {
            let t = crate::text::copy_chars(&self.specials[s3]);
            proof {
                assert(spdv[s3 as int] == self.specials@[s3 as int]@);
            }
            if !self.vocab.contains_tok(&t) {
                let sz = self.vocab.size();
                match self.vocab.insert(sz, t) {
                    Ok(()) => {},
                    Err(_) => {
                        proof {
                            assert(false);
                        }
                        return Err(TokError::InvalidData);
                    },
                }
            }
            s3 = s3 + 1;
        }
        let ghost v0 = self.vocab.toks();
        proof {
            assert(v0 == seed_specials(v_marker, spdv, 0));
            assert(tv@ == text@);
            assert(v0 == seed_vocab(text@, spdv));
        }
        // Build the word-frequency table over the encoder's segments.
        let segs = crate::text::split_segments(&tv);
        let ghost sdv = segs.deep_view();
        let mut tbl: Vec<WordEntry> = Vec::new();
        let mut si: usize = 0;
        proof {
            assert(tbl_view(tbl@) =~~= Seq::<(Seq<usize>, usize)>::empty());
        }
        while si < segs.len()
            invariant
                si <= segs@.len(),
                sdv == segs.deep_view(),
                sdv.len() == segs@.len(),
                v0 == self.vocab.toks(),
                self.vocab.wf(),
                build_tbl(v0, sdv, 0, Seq::<(Seq<usize>, usize)>::empty()) == build_tbl(
                    v0,
                    sdv,
                    si as int,
                    tbl_view(tbl@),
                ),
                forall|m: int|
                    0 <= m < tbl_view(tbl@).len() ==> (#[trigger] tbl_view(tbl@)[m]).1 <= si,
                self.merges@ =~= Seq::<MergeRule>::empty(),
                self.rank_pairs() =~~= Seq::<(Seq<char>, Seq<char>)>::empty(),
                self.special_toks() =~~= spdv,
            decreases segs@.len() - si,
        {
            proof {
                assert(sdv[si as int] == segs@[si as int]@);
            }
            let syms = match char_ids_vec(&self.vocab, &segs[si]) {
                Ok(v) => v,
                Err(e) => {
                    proof {
                        assert(build_tbl(v0, sdv, si as int, tbl_view(tbl@)) == Err::<
                            Seq<(Seq<usize>, usize)>,
                            TokError,
                        >(e));
                        assert(train_spec(text@, vocab_size, spdv) == Err::<
                            (Seq<Seq<char>>, Seq<MergeRule>, Seq<(Seq<char>, Seq<char>)>),
                            TokError,
                        >(e));
                    }
                    return Err(e);
                },
            };
            let ghost symsv = syms@;
            let ghost tvw = tbl_view(tbl@);
            let kk = tbl_find(&tbl, &syms);
            proof {
                lemma_tbl_key_idx(tvw, symsv);
            }
            if kk < tbl.len() {
                let mut e = tbl.remove(kk);
                proof {
                    assert(tvw[kk as int] == we_view(tbl@.insert(kk as int, e)[kk as int]));
                    assert(tvw[kk as int].1 <= si);
                }
                e.count = e.count + 1;
                tbl.insert(kk, e);
                proof {
                    assert(tbl_view(tbl@) =~~= add_word(tvw, symsv));
                }
            } else {
                tbl.push(WordEntry { syms, count: 1 });
                proof {
                    assert(tbl_view(tbl@) =~~= add_word(tvw, symsv));
                }
            }
            proof {
                assert(build_tbl(v0, sdv, si as int, tvw) == build_tbl(
                    v0,
                    sdv,
                    si + 1,
                    add_word(tvw, symsv),
                ));
                assert forall|m: int|
                    0 <= m < tbl_view(tbl@).len() implies (#[trigger] tbl_view(tbl@)[m]).1 <= si
                    + 1 by {
                    lemma_tbl_key_idx(tvw, symsv);
                }
            }
            si = si + 1;
        }
        proof {
            assert(build_tbl(v0, sdv, sdv.len() as int, tbl_view(tbl@)) == Ok::<
                Seq<(Seq<usize>, usize)>,
                TokError,
            >(tbl_view(tbl@)));
        }
        let ghost tbl0 = tbl_view(tbl@);
        // The merge-learning loop.
        let mut more: usize = 1;
        while more == 1 && self.vocab.size() < vocab_size
            invariant
                more <= 1,
                self.wf(),
                self.merges_sound(),
                self.ranks_aligned(),
                self.special_toks() =~~= spdv,
                v0.len() <= self.toks().len(),
                vocab_size <= v0.len() ==> self.toks() == v0 && self.merges@.len() == 0,
                self.toks().len() <= vocab_size || self.toks().len() == v0.len(),
                train_loop(v0, spdv, tbl0, Seq::<MergeRule>::empty(), Seq::<(Seq<char>, Seq<char>)>::empty(), vocab_size)
                    == (if more == 1 {
                    train_loop(
                        self.toks(),
                        spdv,
                        tbl_view(tbl@),
                        self.merges@,
                        self.rank_pairs(),
                        vocab_size,
                    )
                } else {
                    (self.toks(), self.merges@, self.rank_pairs())
                }),
            decreases ts_from(tbl_view(tbl@), 0) + more,
        {
            let ghost pre_toks = self.toks();
            let ghost pre_tbl = tbl_view(tbl@);
            let ghost pre_merges = self.merges@;
            let ghost pre_ranks = self.rank_pairs();
            match self.find_freq_pair(&tbl) {
                None => {
                    proof {
                        lemma_ts_nonneg(tbl_view(tbl@), 0);
                        assert(train_loop(
                            pre_toks,
                            spdv,
                            pre_tbl,
                            pre_merges,
                            pre_ranks,
                            vocab_size,
                        ) == (pre_toks, pre_merges, pre_ranks));
                    }
                    more = 0;
                },
                Some(p) => {
                    let (a, b) = p;
                    let ta = match self.vocab.token_of(a) {
                        Ok(t) => t,
                        Err(_) => {
                            proof {
                                assert(false);
                            }
                            return Err(TokError::NotFound);
                        },
                    };
                    let tb = match self.vocab.token_of(b) {
                        Ok(t) => t,
                        Err(_) => {
                            proof {
                                assert(false);
                            }
                            return Err(TokError::NotFound);
                        },
                    };
                    let ghost tav = ta@;
                    let ghost tbv = tb@;
                    let nt = crate::text::concat_chars(&ta, &tb);
                    let ghost nts = nt@;
                    let mid: usize = match self.vocab.id_of(&nt) {
                        Ok(id) => id,
                        Err(_) => {
                            let id = self.vocab.size();
                            proof {
                                assert(nts.len() > 0) by {
                                    assert(pre_toks[a as int].len() > 0);
                                }
                            }
                            match self.vocab.insert(id, nt) {
                                Ok(()) => {},
                                Err(_) => {
                                    proof {
                                        assert(false);
                                    }
                                    return Err(TokError::InvalidData);
                                },
                            }
                            id
                        },
                    };
                    proof {
                        crate::vocab::lemma_idx_of(pre_toks, nts);
                        assert(has_tok(pre_toks, nts) ==> mid as int == idx_of(pre_toks, nts)
                            && self.toks() == pre_toks);
                        assert(!has_tok(pre_toks, nts) ==> mid == pre_toks.len() && self.toks()
                            == pre_toks.push(nts));
                        assert(self.toks()[mid as int] == nts);
                        assert(mid < self.toks().len());
                    }
                    self.merges.push(MergeRule { left: a, right: b, merged: mid });
                    self.ranks.push((ta, tb));
                    proof {
                        assert(self.merges@ =~= pre_merges.push(
                            MergeRule { left: a, right: b, merged: mid },
                        ));
                        assert(self.rank_pairs() =~~= pre_ranks.push((tav, tbv)));
                    }
                    // Rewrite every word with the new merge applied.
                    let mut ntbl: Vec<WordEntry> = Vec::new();
                    let mut e2: usize = 0;
                    proof {
                        assert(tbl_view(ntbl@) =~~= rw_tbl(pre_tbl, a, b, mid).take(0));
                    }
                    while e2 < tbl.len()
                        invariant
                            e2 <= tbl@.len(),
                            pre_tbl == tbl_view(tbl@),
                            pre_tbl.len() == tbl@.len(),
                            tbl_view(ntbl@) =~~= rw_tbl(pre_tbl, a, b, mid).take(e2 as int),
                        decreases tbl@.len() - e2,
                    {
                        proof {
                            assert(pre_tbl[e2 as int] == we_view(tbl@[e2 as int]));
                        }
                        let ns = self.replace_pair(&tbl[e2].syms, (a, b), mid);
                        let ghost before = tbl_view(ntbl@);
                        let cnt = tbl[e2].count;
                        ntbl.push(WordEntry { syms: ns, count: cnt });
                        proof {
                            assert(rw_tbl(pre_tbl, a, b, mid)[e2 as int] == (
                                rp_ids(a, b, mid, pre_tbl[e2 as int].0),
                                pre_tbl[e2 as int].1,
                            ));
                            assert(tbl_view(ntbl@) =~~= before.push(
                                rw_tbl(pre_tbl, a, b, mid)[e2 as int],
                            ));
                            assert(tbl_view(ntbl@) =~~= rw_tbl(pre_tbl, a, b, mid).take(e2 + 1));
                        }
                        e2 = e2 + 1;
                    }
                    proof {
                        assert(tbl_view(ntbl@) =~~= rw_tbl(pre_tbl, a, b, mid));
                    }
                    tbl = ntbl;
                    proof {
                        // One unfolding step of the specification loop.
                        assert(train_loop(
                            pre_toks,
                            spdv,
                            pre_tbl,
                            pre_merges,
                            pre_ranks,
                            vocab_size,
                        ) == train_loop(
                            self.toks(),
                            spdv,
                            tbl_view(tbl@),
                            self.merges@,
                            self.rank_pairs(),
                            vocab_size,
                        ));
                        // Invariant upkeep.
                        assert forall|q: int| 0 <= q < self.merges@.len() implies (
                        #[trigger] self.merges@[q]).left < self.toks().len() && self.merges@[
                            q
                        ].right < self.toks().len() && self.merges@[q].merged
                            < self.toks().len() by {
                            if q < pre_merges.len() {
                                assert(self.merges@[q] == pre_merges[q]);
                            }
                        }
                        assert forall|q: int| 0 <= q < self.merges@.len() implies self.toks()[(
                        #[trigger] self.merges@[q]).merged as int] == self.toks()[self.merges@[
                            q
                        ].left as int] + self.toks()[self.merges@[q].right as int] by {
                            if q < pre_merges.len() {
                                assert(self.merges@[q] == pre_merges[q]);
                            }
                        }
                        assert forall|q: int| 0 <= q < self.merges@.len() implies self.rank_pairs()[
                            q
                        ] == (
                            self.toks()[(#[trigger] self.merges@[q]).left as int],
                            self.toks()[self.merges@[q].right as int],
                        ) by {
                            if q < pre_merges.len() {
                                assert(self.merges@[q] == pre_merges[q]);
                                assert(self.rank_pairs()[q] == pre_ranks[q]);
                            }
                        }
                        // Strict decrease of the total symbol count.
                        lemma_pair_count_pos(pre_tbl, a, b);
                        lemma_rw_ts(pre_tbl, a, b, mid, 0);
                        lemma_ts_nonneg(tbl_view(tbl@), 0);
                    }
                },
            }
        }
        proof {
            if more == 1 {
                assert(train_loop(
                    self.toks(),
                    spdv,
                    tbl_view(tbl@),
                    self.merges@,
                    self.rank_pairs(),
                    vocab_size,
                ) == (self.toks(), self.merges@, self.rank_pairs()));
            }
            assert(train_spec(text@, vocab_size, spdv) == Ok::<
                (Seq<Seq<char>>, Seq<MergeRule>, Seq<(Seq<char>, Seq<char>)>),
                TokError,
            >((self.toks(), self.merges@, self.rank_pairs())));
        }
        Ok(())
    }
}

} // verus!
