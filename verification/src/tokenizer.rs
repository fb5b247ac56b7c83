//! The tokenizer: a vocabulary together with the learned merge rules, in two
//! equivalent representations, and the special-token set.
//!
//! The id-pair merge table drives byte-pair merging whenever it is populated
//! (a self-trained or natively loaded tokenizer); the ordered rank list
//! drives it otherwise (an externally imported table).

use vstd::prelude::*;
use crate::text::marker;
use crate::text::segs_of;
use crate::text::to_chars;
use crate::text::chars_to_string;
use crate::vocab::Vocabulary;
use crate::vocab::idx_of;
use crate::vocab::has_tok;
use crate::text::eq_chars;
use crate::text::concat_chars;
use crate::text::copy_chars;
use crate::TokError;

verus! {

/// One learned merge rule: whenever `left` is immediately followed by
/// `right` in a token-ID sequence, the pair is replaced by `merged`.
#[derive(Clone, Copy, Debug, PartialEq, Eq, Structural)]
pub struct MergeRule {
    pub left: usize,
    pub right: usize,
    pub merged: usize,
}

/// A byte-pair-encoding tokenizer.
pub struct BPETokenizer {
    /// The bidirectional ID / token-string table.
    pub vocab: Vocabulary,
    /// The id-pair merge table, in learning order.
    pub merges: Vec<MergeRule>,
    /// The ordered rank list: entry `k` is the string pair with rank `k`.
    pub ranks: Vec<(Vec<char>, Vec<char>)>,
    /// The reserved special tokens, each one atomic vocabulary entry.
    pub specials: Vec<Vec<char>>,
}

impl BPETokenizer {
    /// The vocabulary's token strings, in ID order.
    pub open spec fn toks(self) -> Seq<Seq<char>> {
        self.vocab.toks()
    }

    /// The rank list as string pairs.
    pub open spec fn rank_pairs(self) -> Seq<(Seq<char>, Seq<char>)> {
        self.ranks@.map_values(|p: (Vec<char>, Vec<char>)| (p.0@, p.1@))
    }

    /// The special-token strings.
    pub open spec fn special_toks(self) -> Seq<Seq<char>> {
        self.specials.deep_view()
    }

    /// Well-formedness: the vocabulary is a bijection and every merge rule
    /// refers to existing IDs.
    pub open spec fn wf(self) -> bool {
        &&& self.vocab.wf()
        &&& forall|k: int|
            0 <= k < self.merges@.len() ==> (#[trigger] self.merges@[k]).left < self.toks().len()
                && self.merges@[k].right < self.toks().len() && self.merges@[k].merged
                < self.toks().len()
    }

    /// Soundness of the merge table: each rule's merged token string is the
    /// concatenation of its two constituents' strings.  Training establishes
    /// this; it is what makes merging preserve the spelled-out text.
    pub open spec fn merges_sound(self) -> bool {
        forall|k: int|
            0 <= k < self.merges@.len() ==> self.toks()[(#[trigger] self.merges@[k]).merged as int]
                == self.toks()[self.merges@[k].left as int]
                + self.toks()[self.merges@[k].right as int]
    }

    /// The dual representations agree: rank-list entry `k` holds exactly
    /// the constituent strings of the `k`-th learned merge rule, so the rank
    /// list length equals the number of merges and rank order is learning
    /// order.
    pub open spec fn ranks_aligned(self) -> bool {
        &&& self.rank_pairs().len() == self.merges@.len()
        &&& forall|k: int|
            0 <= k < self.merges@.len() ==> self.rank_pairs()[k] == (
                self.toks()[(#[trigger] self.merges@[k]).left as int],
                self.toks()[self.merges@[k].right as int],
            )
    }

    /// An empty tokenizer: no vocabulary, no merges, no special tokens.
    pub fn new() -> (r: BPETokenizer)
        ensures
            r.toks() =~= Seq::<Seq<char>>::empty(),
            r.merges@ =~= Seq::<MergeRule>::empty(),
            r.rank_pairs() =~= Seq::<(Seq<char>, Seq<char>)>::empty(),
            r.special_toks() =~= Seq::<Seq<char>>::empty(),
            r.wf(),
            r.merges_sound(),
    {
        BPETokenizer {
            vocab: Vocabulary::new(),
            merges: Vec::new(),
            ranks: Vec::new(),
            specials: Vec::new(),
        }
    }
}

/// One step of decoding: the text after appending token string `t` to `acc`.
/// A `"\n"` token emits a newline, preceded by a space unless the output so
/// far is empty or already ends with a space; a token starting with the space
/// marker emits a space and the remainder with the marker stripped; any other
/// token is appended verbatim.
pub open spec fn dec_step(acc: Seq<char>, t: Seq<char>) -> Seq<char> {
    if t == seq!['\n'] {
        (if acc.len() > 0 && acc.last() != ' ' {
            acc.push(' ')
        } else {
            acc
        }).push('\n')
    } else if t.len() > 0 && t[0] == marker() {
        acc.push(' ') + t.skip(1)
    } else {
        acc + t
    }
}

/// The decoded text of `ids[i..]` appended after `acc`; `NotFound` as soon
/// as an ID is outside the vocabulary.
pub open spec fn dec_from(v: Seq<Seq<char>>, ids: Seq<usize>, i: int, acc: Seq<char>) -> Result<
    Seq<char>,
    TokError,
>
    decreases ids.len() - i,
{
    if !(0 <= i < ids.len()) {
        Ok(acc)
    } else if ids[i] >= v.len() {
        Err(TokError::NotFound)
    } else {
        dec_from(v, ids, i + 1, dec_step(acc, v[ids[i] as int]))
    }
}

/// The decoding of a whole ID sequence against vocabulary `v`.
pub open spec fn decode_spec(v: Seq<Seq<char>>, ids: Seq<usize>) -> Result<Seq<char>, TokError> {
    dec_from(v, ids, 0, seq![])
}

impl BPETokenizer {
    /// Decodes a token-ID sequence back to text, left to right in a single
    /// pass; fails with `NotFound` if any ID is absent from the vocabulary.
    pub fn decode(&self, token_ids: &Vec<usize>) -> (r: Result<String, TokError>)
        ensures
            match r {
                Ok(s) => decode_spec(self.toks(), token_ids@) == Ok::<Seq<char>, TokError>(s@),
                Err(e) => decode_spec(self.toks(), token_ids@) == Err::<Seq<char>, TokError>(e),
            },
    {
        let mut out: Vec<char> = Vec::new();
        let mut i: usize = 0;
        while i < token_ids.len()
            invariant
                i <= token_ids@.len(),
                decode_spec(self.toks(), token_ids@) == dec_from(
                    self.toks(),
                    token_ids@,
                    i as int,
                    out@,
                ),
            decreases token_ids@.len() - i,
        {
            let id = token_ids[i];
            let tok = match self.vocab.token_of(id) {
                Ok(t) => t,
                Err(e) => {
                    return Err(e);
                },
            };
            let ghost acc0 = out@;
            if tok.len() == 1 && tok[0] == '\n' {
                proof {
                    assert(tok@ =~= seq!['\n']);
                }
                if out.len() > 0 && out[out.len() - 1] != ' ' {
                    out.push(' ');
                }
                out.push('\n');
                proof {
                    assert(out@ == dec_step(acc0, self.toks()[id as int]));
                }
            } else if tok.len() > 0 && tok[0] == crate::text::marker_char() {
                proof {
                    assert(tok@ != seq!['\n']);
                }
                out.push(' ');
                let mut k: usize = 1;
                while k < tok.len()
                    invariant
                        1 <= k <= tok@.len(),
                        out@ == acc0.push(' ') + tok@.subrange(1, k as int),
                    decreases tok@.len() - k,
                {
                    out.push(tok[k]);
                    proof {
                        assert(acc0.push(' ') + tok@.subrange(1, k + 1) =~= (acc0.push(' ')
                            + tok@.subrange(1, k as int)).push(tok@[k as int]));
                    }
                    k = k + 1;
                }
                proof {
                    assert(tok@.subrange(1, tok@.len() as int) =~= tok@.skip(1));
                    assert(out@ == dec_step(acc0, self.toks()[id as int]));
                }
            } else {
                proof {
                    assert(tok@ != seq!['\n']) by {
                        if tok@ == seq!['\n'] {
                            assert(tok@.len() == 1 && tok@[0] == '\n');
                        }
                    }
                }
                let mut k: usize = 0;
                while k < tok.len()
                    invariant
                        k <= tok@.len(),
                        out@ == acc0 + tok@.subrange(0, k as int),
                    decreases tok@.len() - k,
                {
                    out.push(tok[k]);
                    proof {
                        assert(acc0 + tok@.subrange(0, k + 1) =~= (acc0 + tok@.subrange(
                            0,
                            k as int,
                        )).push(tok@[k as int]));
                    }
                    k = k + 1;
                }
                proof {
                    assert(tok@.subrange(0, tok@.len() as int) =~= tok@);
                    assert(out@ == dec_step(acc0, self.toks()[id as int]));
                }
            }
            i = i + 1;
        }
        Ok(chars_to_string(&out))
    }
}

/// First rule index whose pair is `(a, b)`, or `merges.len()` if none.
pub open spec fn rule_idx(merges: Seq<MergeRule>, a: usize, b: usize) -> int
    decreases merges.len(),
{
    if merges.len() == 0 {
        0
    } else if merges[0].left == a && merges[0].right == b {
        0
    } else {
        1 + rule_idx(merges.skip(1), a, b)
    }
}

pub proof fn lemma_rule_idx(merges: Seq<MergeRule>, a: usize, b: usize)
    ensures
        0 <= rule_idx(merges, a, b) <= merges.len(),
        rule_idx(merges, a, b) < merges.len() ==> merges[rule_idx(merges, a, b)].left == a
            && merges[rule_idx(merges, a, b)].right == b,
        forall|m: int|
            0 <= m < rule_idx(merges, a, b) ==> !(merges[m].left == a && merges[m].right == b),
        (rule_idx(merges, a, b) < merges.len()) == (exists|m: int|
            0 <= m < merges.len() && merges[m].left == a && merges[m].right == b),
    decreases merges.len(),
{
    if merges.len() > 0 && !(merges[0].left == a && merges[0].right == b) {
        lemma_rule_idx(merges.skip(1), a, b);
        let r = rule_idx(merges, a, b);
        assert(r == 1 + rule_idx(merges.skip(1), a, b));
        assert forall|m: int| 0 <= m < r implies !(merges[m].left == a && merges[m].right == b) by {
            if m > 0 {
                assert(merges.skip(1)[m - 1] == merges[m]);
            }
        }
        if r < merges.len() {
            assert(merges.skip(1)[r - 1] == merges[r]);
        }
        if exists|m: int| 0 <= m < merges.len() && merges[m].left == a && merges[m].right == b {
            let m = choose|m: int|
                0 <= m < merges.len() && merges[m].left == a && merges[m].right == b;
            assert(m >= 1);
            assert(merges.skip(1)[m - 1] == merges[m]);
        }
    }
}

/// One full left-to-right pass of id-pair merging: whenever an adjacent pair
/// matches a rule, it is replaced and the scan continues after it.
pub open spec fn pair_pass(merges: Seq<MergeRule>, ids: Seq<usize>) -> Seq<usize>
    decreases ids.len(),
{
    if ids.len() >= 2 {
        let k = rule_idx(merges, ids[0], ids[1]);
        if k < merges.len() {
            seq![merges[k].merged] + pair_pass(merges, ids.skip(2))
        } else {
            seq![ids[0]] + pair_pass(merges, ids.skip(1))
        }
    } else {
        ids
    }
}

pub proof fn lemma_pair_pass_le(merges: Seq<MergeRule>, ids: Seq<usize>)
    ensures
        pair_pass(merges, ids).len() <= ids.len(),
    decreases ids.len(),
{
    if ids.len() >= 2 {
        let k = rule_idx(merges, ids[0], ids[1]);
        if k < merges.len() {
            lemma_pair_pass_le(merges, ids.skip(2));
        } else {
            lemma_pair_pass_le(merges, ids.skip(1));
        }
    }
}

/// Repeated passes of id-pair merging, until a pass merges nothing or one
/// symbol remains.
pub open spec fn pair_rounds(merges: Seq<MergeRule>, ids: Seq<usize>) -> Seq<usize>
    decreases ids.len(),
    via pair_rounds_dec
{
    if ids.len() <= 1 {
        ids
    } else {
        let nxt = pair_pass(merges, ids);
        if nxt.len() == ids.len() {
            nxt
        } else {
            pair_rounds(merges, nxt)
        }
    }
}

#[via_fn]
proof fn pair_rounds_dec(merges: Seq<MergeRule>, ids: Seq<usize>) {
    lemma_pair_pass_le(merges, ids);
}

/// The single-character token IDs of `s[i..]`; `NotFound` as soon as a
/// character has no vocabulary entry.
pub open spec fn char_ids_from(v: Seq<Seq<char>>, s: Seq<char>, i: int) -> Result<
    Seq<usize>,
    TokError,
>
    decreases s.len() - i,
{
    if !(0 <= i < s.len()) {
        Ok(seq![])
    } else {
        let id = idx_of(v, seq![s[i]]);
        if id >= v.len() {
            Err(TokError::NotFound)
        } else {
            match char_ids_from(v, s, i + 1) {
                Ok(rest) => Ok(seq![id as usize] + rest),
                Err(e) => Err(e),
            }
        }
    }
}

/// First rank-list index whose string pair is `(a, b)`, or `ranks.len()`.
pub open spec fn rank_idx(ranks: Seq<(Seq<char>, Seq<char>)>, a: Seq<char>, b: Seq<char>) -> int
    decreases ranks.len(),
{
    if ranks.len() == 0 {
        0
    } else if ranks[0].0 == a && ranks[0].1 == b {
        0
    } else {
        1 + rank_idx(ranks.skip(1), a, b)
    }
}

pub proof fn lemma_rank_idx(ranks: Seq<(Seq<char>, Seq<char>)>, a: Seq<char>, b: Seq<char>)
    ensures
        0 <= rank_idx(ranks, a, b) <= ranks.len(),
        rank_idx(ranks, a, b) < ranks.len() ==> ranks[rank_idx(ranks, a, b)] == (a, b),
        forall|m: int| 0 <= m < rank_idx(ranks, a, b) ==> ranks[m] != (a, b),
        (rank_idx(ranks, a, b) < ranks.len()) == (exists|m: int|
            0 <= m < ranks.len() && ranks[m] == (a, b)),
    decreases ranks.len(),
{
    if ranks.len() > 0 && !(ranks[0].0 == a && ranks[0].1 == b) {
        lemma_rank_idx(ranks.skip(1), a, b);
        let r = rank_idx(ranks, a, b);
        assert(r == 1 + rank_idx(ranks.skip(1), a, b));
        assert forall|m: int| 0 <= m < r implies ranks[m] != (a, b) by {
            if m > 0 {
                assert(ranks.skip(1)[m - 1] == ranks[m]);
            }
            if m == 0 {
                assert(!(ranks[0].0 == a && ranks[0].1 == b));
            }
        }
        if r < ranks.len() {
            assert(ranks.skip(1)[r - 1] == ranks[r]);
        }
        if exists|m: int| 0 <= m < ranks.len() && ranks[m] == (a, b) {
            let m = choose|m: int| 0 <= m < ranks.len() && ranks[m] == (a, b);
            assert(m >= 1) by {
                if m == 0 {
                    assert(ranks[0].0 == a && ranks[0].1 == b);
                }
            }
            assert(ranks.skip(1)[m - 1] == ranks[m]);
        }
    }
}

/// The position, at or after `i`, of the adjacent symbol pair with the
/// lowest rank (earliest position on ties), or `syms.len()` if no adjacent
/// pair is in the rank list.
pub open spec fn min_rank_pos(
    ranks: Seq<(Seq<char>, Seq<char>)>,
    syms: Seq<Seq<char>>,
    i: int,
) -> int
    decreases syms.len() - i,
{
    if !(0 <= i) || i + 1 >= syms.len() {
        syms.len() as int
    } else {
        let rest = min_rank_pos(ranks, syms, i + 1);
        let ri = rank_idx(ranks, syms[i], syms[i + 1]);
        if ri < ranks.len() && (rest >= syms.len() || ri <= rank_idx(
            ranks,
            syms[rest],
            syms[rest + 1],
        )) {
            i
        } else {
            rest
        }
    }
}

pub proof fn lemma_min_rank_pos(ranks: Seq<(Seq<char>, Seq<char>)>, syms: Seq<Seq<char>>, i: int)
    requires
        0 <= i <= syms.len(),
    ensures
        i <= min_rank_pos(ranks, syms, i) <= syms.len(),
        min_rank_pos(ranks, syms, i) < syms.len() ==> min_rank_pos(ranks, syms, i) + 1 < syms.len()
            && rank_idx(
            ranks,
            syms[min_rank_pos(ranks, syms, i)],
            syms[min_rank_pos(ranks, syms, i) + 1],
        ) < ranks.len(),
    decreases syms.len() - i,
{
    if !(i + 1 >= syms.len()) {
        lemma_min_rank_pos(ranks, syms, i + 1);
    }
}

/// Replaces every non-overlapping left-to-right occurrence of the adjacent
/// string pair `(a, b)` with the concatenation `a + b`.
pub open spec fn merge_all(a: Seq<char>, b: Seq<char>, syms: Seq<Seq<char>>) -> Seq<Seq<char>>
    decreases syms.len(),
{
    if syms.len() >= 2 && syms[0] == a && syms[1] == b {
        seq![a + b] + merge_all(a, b, syms.skip(2))
    } else if syms.len() >= 1 {
        seq![syms[0]] + merge_all(a, b, syms.skip(1))
    } else {
        seq![]
    }
}

pub proof fn lemma_merge_all_le(a: Seq<char>, b: Seq<char>, syms: Seq<Seq<char>>)
    ensures
        merge_all(a, b, syms).len() <= syms.len(),
        (exists|m: int| 0 <= m && m + 1 < syms.len() && #[trigger] syms[m] == a && syms[m + 1] == b)
            ==> merge_all(a, b, syms).len() < syms.len(),
    decreases syms.len(),
{
    if syms.len() >= 2 && syms[0] == a && syms[1] == b {
        lemma_merge_all_le(a, b, syms.skip(2));
    } else if syms.len() >= 1 {
        lemma_merge_all_le(a, b, syms.skip(1));
        if exists|m: int| 0 <= m && m + 1 < syms.len() && #[trigger] syms[m] == a && syms[m + 1] == b {
            let m = choose|m: int|
                0 <= m && m + 1 < syms.len() && #[trigger] syms[m] == a && syms[m + 1] == b;
            assert(m >= 1);
            assert(syms.skip(1)[m - 1] == syms[m] && syms.skip(1)[m] == syms[m + 1]);
            assert(exists|n: int|
                0 <= n && n + 1 < syms.skip(1).len() && #[trigger] syms.skip(1)[n] == a
                    && syms.skip(1)[n + 1] == b);
        }
    }
}

/// Repeated rank-based merging: each round merges all non-overlapping
/// occurrences of the lowest-ranked adjacent pair, until no adjacent pair is
/// ranked or one symbol remains.
pub open spec fn rank_rounds(ranks: Seq<(Seq<char>, Seq<char>)>, syms: Seq<Seq<char>>) -> Seq<
    Seq<char>,
>
    decreases syms.len(),
    via rank_rounds_dec
{
    if syms.len() <= 1 {
        syms
    } else {
        let p = min_rank_pos(ranks, syms, 0);
        if p >= syms.len() {
            syms
        } else {
            rank_rounds(ranks, merge_all(syms[p], syms[p + 1], syms))
        }
    }
}

#[via_fn]
proof fn rank_rounds_dec(ranks: Seq<(Seq<char>, Seq<char>)>, syms: Seq<Seq<char>>) {
    if syms.len() > 1 {
        lemma_min_rank_pos(ranks, syms, 0);
        let p = min_rank_pos(ranks, syms, 0);
        if p < syms.len() {
            lemma_merge_all_le(syms[p], syms[p + 1], syms);
        }
    }
}

/// The IDs of a symbol-string sequence; `NotFound` as soon as a symbol has
/// no vocabulary entry.
pub open spec fn ids_of_syms(v: Seq<Seq<char>>, syms: Seq<Seq<char>>, i: int) -> Result<
    Seq<usize>,
    TokError,
>
    decreases syms.len() - i,
{
    if !(0 <= i < syms.len()) {
        Ok(seq![])
    } else {
        let id = idx_of(v, syms[i]);
        if id >= v.len() {
            Err(TokError::NotFound)
        } else {
            match ids_of_syms(v, syms, i + 1) {
                Ok(rest) => Ok(seq![id as usize] + rest),
                Err(e) => Err(e),
            }
        }
    }
}

/// The byte-pair tokenization of one out-of-vocabulary segment: decompose
/// into single-character tokens, then merge by the id-pair table if it is
/// populated, or by the rank list otherwise.
pub open spec fn bpe_spec(t: BPETokenizer, seg: Seq<char>) -> Result<Seq<usize>, TokError> {
    match char_ids_from(t.toks(), seg, 0) {
        Err(e) => Err(e),
        Ok(ids0) => if t.merges@.len() > 0 || t.rank_pairs().len() == 0 {
            Ok(pair_rounds(t.merges@, ids0))
        } else {
            ids_of_syms(
                t.toks(),
                rank_rounds(t.rank_pairs(), ids0.map_values(|id: usize| t.toks()[id as int])),
                0,
            )
        },
    }
}

/// `Ok` IDs prefixed with `pre`; errors passed through.
pub open spec fn cat_ids(pre: Seq<usize>, r: Result<Seq<usize>, TokError>) -> Result<
    Seq<usize>,
    TokError,
> {
    match r {
        Ok(v) => Ok(pre + v),
        Err(e) => Err(e),
    }
}

/// The view of an exec ID-sequence result.
pub open spec fn ids_result_view(r: Result<Vec<usize>, TokError>) -> Result<Seq<usize>, TokError> {
    match r {
        Ok(v) => Ok(v@),
        Err(e) => Err(e),
    }
}

/// All IDs below the vocabulary size.
pub open spec fn ids_below(ids: Seq<usize>, n: nat) -> bool {
    forall|j: int| 0 <= j < ids.len() ==> ids[j] < n
}

impl BPETokenizer {
    /// Index of the first merge rule for the ID pair `(a, b)`, or the table
    /// length if there is none.
    fn find_rule(&self, a: usize, b: usize) -> (r: usize)
        ensures
            r == rule_idx(self.merges@, a, b),
    {
        proof {
            lemma_rule_idx(self.merges@, a, b);
        }
        let mut i: usize = 0;
        while i < self.merges.len()
            invariant
                i <= self.merges@.len(),
                forall|m: int|
                    0 <= m < i ==> !((#[trigger] self.merges@[m]).left == a && self.merges@[m].right
                        == b),
            decreases self.merges@.len() - i,
        {
            if self.merges[i].left == a && self.merges[i].right == b {
                return i;
            }
            i = i + 1;
        }
        i
    }

    /// One left-to-right merging pass over an ID sequence.
    fn apply_pair_pass(&self, ids: &Vec<usize>) -> (r: Vec<usize>)
        ensures
            r@ == pair_pass(self.merges@, ids@),
            r@.len() <= ids@.len(),
            self.wf() && ids_below(ids@, self.toks().len()) ==> ids_below(
                r@,
                self.toks().len(),
            ),
    {
        proof {
            lemma_pair_pass_le(self.merges@, ids@);
        }
        let mut out: Vec<usize> = Vec::new();
        let mut i: usize = 0;
        proof {
            assert(ids@.skip(0) =~= ids@);
            assert(out@ + pair_pass(self.merges@, ids@) =~= pair_pass(self.merges@, ids@));
        }
        while i < ids.len()
            invariant
                i <= ids@.len(),
                pair_pass(self.merges@, ids@) == out@ + pair_pass(
                    self.merges@,
                    ids@.skip(i as int),
                ),
                self.wf() && ids_below(ids@, self.toks().len()) ==> ids_below(
                    out@,
                    self.toks().len(),
                ),
            decreases ids@.len() - i,
        {
            let ghost rem = ids@.skip(i as int);
            let ghost out0 = out@;
            if i + 1 < ids.len() {
                proof {
                    assert(rem[0] == ids@[i as int]);
                    assert(rem[1] == ids@[i + 1]);
                }
                let k = self.find_rule(ids[i], ids[i + 1]);
                if k < self.merges.len() {
                    out.push(self.merges[k].merged);
                    proof {
                        assert(ids@.skip(i as int).skip(2) =~= ids@.skip(i + 2));
                        assert(pair_pass(self.merges@, rem) == seq![self.merges@[k as int].merged]
                            + pair_pass(self.merges@, ids@.skip(i + 2)));
                        assert(out0 + pair_pass(self.merges@, rem) =~= out@ + pair_pass(
                            self.merges@,
                            ids@.skip(i + 2),
                        ));
                    }
                    i = i + 2;
                } else {
                    out.push(ids[i]);
                    proof {
                        assert(ids@.skip(i as int).skip(1) =~= ids@.skip(i + 1));
                        assert(pair_pass(self.merges@, rem) == seq![ids@[i as int]] + pair_pass(
                            self.merges@,
                            ids@.skip(i + 1),
                        ));
                        assert(out0 + pair_pass(self.merges@, rem) =~= out@ + pair_pass(
                            self.merges@,
                            ids@.skip(i + 1),
                        ));
                    }
                    i = i + 1;
                }
            } else {
                out.push(ids[i]);
                proof {
                    assert(rem.len() == 1);
                    assert(pair_pass(self.merges@, rem) == rem);
                    assert(rem =~= seq![ids@[i as int]]);
                    assert(out0 + pair_pass(self.merges@, rem) =~= out@);
                    assert(ids@.skip(i + 1) =~= Seq::<usize>::empty());
                }
                i = i + 1;
            }
        }
        proof {
            assert(ids@.skip(ids@.len() as int) =~= Seq::<usize>::empty());
            assert(out@ + pair_pass(self.merges@, Seq::<usize>::empty()) =~= out@);
        }
        out
    }

    /// Index of the first rank-list entry for the string pair `(a, b)`, or
    /// the list length if there is none.
    fn find_rank(&self, a: &Vec<char>, b: &Vec<char>) -> (r: usize)
        ensures
            r == rank_idx(self.rank_pairs(), a@, b@),
    {
        proof {
            lemma_rank_idx(self.rank_pairs(), a@, b@);
        }
        let mut i: usize = 0;
        while i < self.ranks.len()
            invariant
                i <= self.rank_pairs().len(),
                forall|m: int| 0 <= m < i ==> #[trigger] self.rank_pairs()[m] != (a@, b@),
            decreases self.rank_pairs().len() - i,
        {
            proof {
                assert(self.rank_pairs()[i as int] == (self.ranks@[i as int].0@, self.ranks@[
                    i as int].1@));
            }
            if eq_chars(&self.ranks[i].0, a) && eq_chars(&self.ranks[i].1, b) {
                return i;
            }
            i = i + 1;
        }
        i
    }
}

/// Replaces every non-overlapping left-to-right occurrence of `(a, b)` in
/// `syms` with the concatenation, mirroring [`merge_all`].
fn apply_merge_all(a: &Vec<char>, b: &Vec<char>, syms: &Vec<Vec<char>>) -> (r: Vec<Vec<char>>)
    ensures
        r.deep_view() == merge_all(a@, b@, syms.deep_view()),
{
    let ghost sdv = syms.deep_view();
    let mut out: Vec<Vec<char>> = Vec::new();
    let mut i: usize = 0;
    proof {
        assert(sdv.skip(0) =~~= sdv);
        assert(out.deep_view() + merge_all(a@, b@, sdv) =~~= merge_all(a@, b@, sdv));
    }
    while i < syms.len()
        invariant
            i <= syms@.len(),
            sdv == syms.deep_view(),
            sdv.len() == syms@.len(),
            merge_all(a@, b@, sdv) == out.deep_view() + merge_all(a@, b@, sdv.skip(i as int)),
        decreases syms@.len() - i,
    {
        let ghost rem = sdv.skip(i as int);
        let ghost out0 = out.deep_view();
        proof {
            assert(rem[0] == sdv[i as int]);
            assert(sdv[i as int] == syms@[i as int]@);
        }
        if i + 1 < syms.len() && eq_chars(&syms[i], a) && eq_chars(&syms[i + 1], b) {
            proof {
                assert(rem[1] == sdv[i + 1]);
                assert(sdv[i + 1] == syms@[i + 1]@);
            }
            let m = concat_chars(a, b);
            out.push(m);
            proof {
                assert(sdv.skip(i as int).skip(2) =~~= sdv.skip(i + 2));
                assert(merge_all(a@, b@, rem) == seq![a@ + b@] + merge_all(
                    a@,
                    b@,
                    sdv.skip(i + 2),
                ));
                assert(out.deep_view() =~~= out0.push(m@));
                assert(out0 + merge_all(a@, b@, rem) =~~= out.deep_view() + merge_all(
                    a@,
                    b@,
                    sdv.skip(i + 2),
                ));
            }
            i = i + 2;
        } else {
            let c = copy_chars(&syms[i]);
            out.push(c);
            proof {
                assert(!(rem.len() >= 2 && rem[0] == a@ && rem[1] == b@)) by {
                    if rem.len() >= 2 {
                        assert(rem[1] == sdv[i + 1]);
                        assert(sdv[i + 1] == syms@[i + 1]@);
                    }
                }
                assert(sdv.skip(i as int).skip(1) =~~= sdv.skip(i + 1));
                assert(merge_all(a@, b@, rem) == seq![rem[0]] + merge_all(
                    a@,
                    b@,
                    sdv.skip(i + 1),
                ));
                assert(out.deep_view() =~~= out0.push(sdv[i as int]));
                assert(out0 + merge_all(a@, b@, rem) =~~= out.deep_view() + merge_all(
                    a@,
                    b@,
                    sdv.skip(i + 1),
                ));
            }
            i = i + 1;
        }
    }
    proof {
        assert(sdv.skip(sdv.len() as int) =~~= Seq::<Seq<char>>::empty());
        assert(merge_all(a@, b@, Seq::<Seq<char>>::empty()) =~~= Seq::<Seq<char>>::empty());
        assert(out.deep_view() + merge_all(a@, b@, sdv.skip(sdv.len() as int))
            =~~= out.deep_view());
    }
    out
}

impl BPETokenizer {
    /// Applies byte-pair merging to one out-of-vocabulary segment and
    /// returns the covering token-ID sequence; fails with `NotFound` if a
    /// character or a produced sub-token has no vocabulary entry.
    pub fn tokenize_with_bpe(&self, token: &Vec<char>) -> (r: Result<Vec<usize>, TokError>)
        ensures
            ids_result_view(r) == bpe_spec(*self, token@),
            self.wf() && r is Ok ==> ids_below(r->Ok_0@, self.toks().len()),
    {
        // Decompose into single-character base tokens.
        let mut ids0: Vec<usize> = Vec::new();
        let mut i: usize = 0;
        while i < token.len()
            invariant
                i <= token@.len(),
                char_ids_from(self.toks(), token@, 0) == cat_ids(
                    ids0@,
                    char_ids_from(self.toks(), token@, i as int),
                ),
                ids_below(ids0@, self.toks().len()),
            decreases token@.len() - i,
        {
            let mut single: Vec<char> = Vec::new();
            single.push(token[i]);
            proof {
                assert(single@ =~= seq![token@[i as int]]);
            }
            let ghost pre = ids0@;
            match self.vocab.id_of(&single) {
                Ok(id) => {
                    ids0.push(id);
                    proof {
                        crate::vocab::lemma_idx_of(self.toks(), single@);
                        assert(char_ids_from(self.toks(), token@, i as int) == cat_ids(
                            seq![id],
                            char_ids_from(self.toks(), token@, i + 1),
                        ));
                        assert forall|rr: Result<Seq<usize>, TokError>|
                            cat_ids(pre, cat_ids(seq![id], rr)) == cat_ids(
                                pre.push(id),
                                rr,
                            ) by {
                            match rr {
                                Ok(v) => {
                                    assert(pre + (seq![id] + v) =~= pre.push(id) + v);
                                },
                                Err(_) => {},
                            }
                        }
                    }
                },
                Err(_) => {
                    proof {
                        crate::vocab::lemma_idx_of(self.toks(), single@);
                        assert(char_ids_from(self.toks(), token@, i as int) == Err::<
                            Seq<usize>,
                            TokError,
                        >(TokError::NotFound));
                    }
                    return Err(TokError::NotFound);
                },
            }
            i = i + 1;
        }
        proof {
            assert(char_ids_from(self.toks(), token@, token@.len() as int) == Ok::<
                Seq<usize>,
                TokError,
            >(seq![]));
            assert(ids0@ + Seq::<usize>::empty() =~= ids0@);
            assert(char_ids_from(self.toks(), token@, 0) == Ok::<Seq<usize>, TokError>(ids0@));
        }
        if self.merges.len() > 0 || self.ranks.len() == 0 {
            // Id-pair strategy: full passes until none merges.
            let ghost start = ids0@;
            let mut cur = ids0;
            let mut more: usize = 1;
            while more == 1
                invariant
                    more <= 1,
                    pair_rounds(self.merges@, start) == (if more == 1 {
                        pair_rounds(self.merges@, cur@)
                    } else {
                        cur@
                    }),
                    ids_below(start, self.toks().len()) && self.wf() ==> ids_below(
                        cur@,
                        self.toks().len(),
                    ),
                decreases cur@.len() + more,
            {
                if cur.len() <= 1 {
                    more = 0;
                } else {
                    let nxt = self.apply_pair_pass(&cur);
                    if nxt.len() == cur.len() {
                        more = 0;
                    }
                    cur = nxt;
                }
            }
            Ok(cur)
        } else {
            // Rank strategy: merge the lowest-ranked adjacent pair per round.
            let ghost rp = self.rank_pairs();
            let mut syms: Vec<Vec<char>> = Vec::new();
            let mut j: usize = 0;
            while j < ids0.len()
                invariant
                    j <= ids0@.len(),
                    ids_below(ids0@, self.toks().len()),
                    syms.deep_view() =~~= ids0@.take(j as int).map_values(
                        |id: usize| self.toks()[id as int],
                    ),
                decreases ids0@.len() - j,
            {
                let ghost before = syms.deep_view();
                match self.vocab.token_of(ids0[j]) {
                    Ok(t) => {
                        syms.push(t);
                        proof {
                            assert(syms.deep_view() =~~= before.push(
                                self.toks()[ids0@[j as int] as int],
                            ));
                            assert(ids0@.take(j + 1).map_values(
                                |id: usize| self.toks()[id as int],
                            ) =~~= ids0@.take(j as int).map_values(
                                |id: usize| self.toks()[id as int],
                            ).push(self.toks()[ids0@[j as int] as int]));
                        }
                    },
                    Err(_) => {
                        proof {
                            assert(false);
                        }
                        return Err(TokError::NotFound);
                    },
                }
                j = j + 1;
            }
            proof {
                assert(ids0@.take(ids0@.len() as int) =~= ids0@);
            }
            let ghost start = syms.deep_view();
            let mut more: usize = 1;
            while more == 1
                invariant
                    more <= 1,
                    rank_rounds(rp, start) == (if more == 1 {
                        rank_rounds(rp, syms.deep_view())
                    } else {
                        syms.deep_view()
                    }),
                decreases syms@.len() + more,
            {
                if syms.len() <= 1 {
                    more = 0;
                } else {
                let ghost sdv = syms.deep_view();
                proof {
                    assert(sdv.len() == syms@.len());
                }
                // Scan right to left for the earliest lowest-ranked pair.
                let mut best: usize = syms.len();
                let mut best_rank: usize = 0;
                let mut pos: usize = syms.len() - 1;
                proof {
                    assert(min_rank_pos(rp, sdv, pos as int) == sdv.len());
                }
                while pos > 0
                    invariant
                        0 < syms@.len(),
                        sdv == syms.deep_view(),
                        sdv.len() == syms@.len(),
                        pos <= syms@.len() - 1,
                        best as int == min_rank_pos(rp, sdv, pos as int),
                        best < syms@.len() ==> best + 1 < syms@.len() && best_rank == rank_idx(
                            rp,
                            sdv[best as int],
                            sdv[best as int + 1],
                        ),
                    decreases pos,
                {
                    let p = pos - 1;
                    proof {
                        assert(sdv[p as int] == syms@[p as int]@);
                        assert(sdv[p + 1] == syms@[p + 1]@);
                    }
                    let ri = self.find_rank(&syms[p], &syms[p + 1]);
                    if ri < self.ranks.len() && (best >= syms.len() || ri <= best_rank) {
                        best = p;
                        best_rank = ri;
                    }
                    pos = p;
                }
                if best >= syms.len() {
                    proof {
                        assert(rank_rounds(rp, sdv) == sdv);
                    }
                    more = 0;
                } else {
                proof {
                    lemma_min_rank_pos(rp, sdv, 0);
                    assert(sdv[best as int] == syms@[best as int]@);
                    assert(sdv[best as int + 1] == syms@[best as int + 1]@);
                }
                let a = copy_chars(&syms[best]);
                let b = copy_chars(&syms[best + 1]);
                let merged = apply_merge_all(&a, &b, &syms);
                proof {
                    lemma_merge_all_le(a@, b@, sdv);
                    assert(sdv[best as int] == a@ && sdv[best as int + 1] == b@);
                    assert(exists|m: int|
                        0 <= m && m + 1 < sdv.len() && #[trigger] sdv[m] == a@ && sdv[m + 1]
                            == b@) by {
                        assert(sdv[best as int] == a@ && sdv[best as int + 1] == b@);
                    }
                    assert(rank_rounds(rp, sdv) == rank_rounds(rp, merge_all(a@, b@, sdv)));
                }
                syms = merged;
                }
                }
            }
            proof {
                assert(syms.deep_view() == rank_rounds(rp, start));
            }
            // Look the final symbols up in the vocabulary.
            let ghost fdv = syms.deep_view();
            let mut out: Vec<usize> = Vec::new();
            let mut k: usize = 0;
            while k < syms.len()
                invariant
                    k <= syms@.len(),
                    fdv == syms.deep_view(),
                    fdv.len() == syms@.len(),
                    ids_of_syms(self.toks(), fdv, 0) == cat_ids(
                        out@,
                        ids_of_syms(self.toks(), fdv, k as int),
                    ),
                    ids_below(out@, self.toks().len()),
                decreases syms@.len() - k,
            {
                proof {
                    assert(fdv[k as int] == syms@[k as int]@);
                }
                let ghost pre = out@;
                match self.vocab.id_of(&syms[k]) {
                    Ok(id) => {
                        out.push(id);
                        proof {
                            crate::vocab::lemma_idx_of(self.toks(), fdv[k as int]);
                            assert(ids_of_syms(self.toks(), fdv, k as int) == cat_ids(
                                seq![id],
                                ids_of_syms(self.toks(), fdv, k + 1),
                            ));
                            assert forall|rr: Result<Seq<usize>, TokError>|
                                cat_ids(pre, cat_ids(seq![id], rr)) == cat_ids(
                                    pre.push(id),
                                    rr,
                                ) by {
                                match rr {
                                    Ok(v) => {
                                        assert(pre + (seq![id] + v) =~= pre.push(id) + v);
                                    },
                                    Err(_) => {},
                                }
                            }
                        }
                    },
                    Err(_) => {
                        proof {
                            crate::vocab::lemma_idx_of(self.toks(), fdv[k as int]);
                            assert(ids_of_syms(self.toks(), fdv, k as int) == Err::<
                                Seq<usize>,
                                TokError,
                            >(TokError::NotFound));
                        }
                        return Err(TokError::NotFound);
                    },
                }
                k = k + 1;
            }
            proof {
                assert(ids_of_syms(self.toks(), fdv, fdv.len() as int) == Ok::<
                    Seq<usize>,
                    TokError,
                >(seq![]));
                assert(out@ + Seq::<usize>::empty() =~= out@);
            }
            Ok(out)
        }
    }
}

/// The encoding of segment list `segs[i..]`: a segment that is itself a
/// vocabulary entry becomes its single ID, any other segment is byte-pair
/// merged; the first failure wins.
pub open spec fn enc_segs(t: BPETokenizer, segs: Seq<Seq<char>>, i: int) -> Result<
    Seq<usize>,
    TokError,
>
    decreases segs.len() - i,
{
    if !(0 <= i < segs.len()) {
        Ok(seq![])
    } else {
        let head: Result<Seq<usize>, TokError> = if has_tok(t.toks(), segs[i]) {
            Ok(seq![idx_of(t.toks(), segs[i]) as usize])
        } else {
            bpe_spec(t, segs[i])
        };
        match (head, enc_segs(t, segs, i + 1)) {
            (Ok(a), Ok(b)) => Ok(a + b),
            (Err(e), _) => Err(e),
            (Ok(_), Err(e)) => Err(e),
        }
    }
}

/// The encoding of a text without special-token handling: segmentation,
/// then per-segment lookup or byte-pair merging.
pub open spec fn encode_ns_spec(t: BPETokenizer, text: Seq<char>) -> Result<Seq<usize>, TokError> {
    enc_segs(t, segs_of(text), 0)
}

/// Whether the literal `tok` occurs in `text` starting at position `p`.
pub open spec fn is_match(text: Seq<char>, p: int, tok: Seq<char>) -> bool {
    tok.len() > 0 && 0 <= p && p + tok.len() <= text.len() && text.subrange(p, p + tok.len())
        == tok
}

/// First index of an allowed token matching at `p`, or `al.len()`.
pub open spec fn tok_match_at(text: Seq<char>, al: Seq<Seq<char>>, p: int) -> int
    decreases al.len(),
{
    if al.len() == 0 {
        0
    } else if is_match(text, p, al[0]) {
        0
    } else {
        1 + tok_match_at(text, al.skip(1), p)
    }
}

pub proof fn lemma_tok_match_at(text: Seq<char>, al: Seq<Seq<char>>, p: int)
    ensures
        0 <= tok_match_at(text, al, p) <= al.len(),
        tok_match_at(text, al, p) < al.len() ==> is_match(text, p, al[tok_match_at(text, al, p)]),
        forall|m: int| 0 <= m < tok_match_at(text, al, p) ==> !is_match(text, p, al[m]),
        (tok_match_at(text, al, p) < al.len()) == (exists|m: int|
            0 <= m < al.len() && is_match(text, p, al[m])),
    decreases al.len(),
{
    if al.len() > 0 && !is_match(text, p, al[0]) {
        lemma_tok_match_at(text, al.skip(1), p);
        let r = tok_match_at(text, al, p);
        assert forall|m: int| 0 <= m < r implies !is_match(text, p, al[m]) by {
            if m > 0 {
                assert(al.skip(1)[m - 1] == al[m]);
            }
        }
        if r < al.len() {
            assert(al.skip(1)[r - 1] == al[r]);
        }
        if exists|m: int| 0 <= m < al.len() && is_match(text, p, al[m]) {
            let m = choose|m: int| 0 <= m < al.len() && is_match(text, p, al[m]);
            assert(m >= 1);
            assert(al.skip(1)[m - 1] == al[m]);
        }
    }
}

/// Earliest position at or after `i` where some allowed token matches, or
/// `text.len()`.
pub open spec fn next_sp(text: Seq<char>, al: Seq<Seq<char>>, i: int) -> int
    decreases text.len() - i,
{
    if !(0 <= i < text.len()) {
        text.len() as int
    } else if tok_match_at(text, al, i) < al.len() {
        i
    } else {
        next_sp(text, al, i + 1)
    }
}

pub proof fn lemma_next_sp(text: Seq<char>, al: Seq<Seq<char>>, i: int)
    requires
        0 <= i <= text.len(),
    ensures
        i <= next_sp(text, al, i) <= text.len(),
        next_sp(text, al, i) < text.len() ==> tok_match_at(text, al, next_sp(text, al, i))
            < al.len(),
    decreases text.len() - i,
{
    if i < text.len() && !(tok_match_at(text, al, i) < al.len()) {
        lemma_next_sp(text, al, i + 1);
    }
}

/// The special-token carve-out from position `i` on: spans between matches
/// are encoded by segmentation, each matched special token becomes its
/// single vocabulary ID (`NotFound` if it has none).
pub open spec fn enc_carve(t: BPETokenizer, text: Seq<char>, al: Seq<Seq<char>>, i: int) -> Result<
    Seq<usize>,
    TokError,
>
    decreases text.len() - i,
    via enc_carve_dec
{
    if !(0 <= i <= text.len()) {
        Ok(seq![])
    } else {
        let p = next_sp(text, al, i);
        if p >= text.len() {
            enc_segs(t, segs_of(text.subrange(i, text.len() as int)), 0)
        } else {
            let k = tok_match_at(text, al, p);
            let tk = al[k];
            if tk.len() == 0 {
                Err(TokError::InvalidInput)
            } else {
                let pre = enc_segs(t, segs_of(text.subrange(i, p)), 0);
                let sid: Result<Seq<usize>, TokError> = if has_tok(t.toks(), tk) {
                    Ok(seq![idx_of(t.toks(), tk) as usize])
                } else {
                    Err(TokError::NotFound)
                };
                match (pre, sid, enc_carve(t, text, al, p + tk.len())) {
                    (Ok(a), Ok(b), Ok(c)) => Ok(a + b + c),
                    (Err(e), _, _) => Err(e),
                    (Ok(_), Err(e), _) => Err(e),
                    (Ok(_), Ok(_), Err(e)) => Err(e),
                }
            }
        }
    }
}

#[via_fn]
proof fn enc_carve_dec(t: BPETokenizer, text: Seq<char>, al: Seq<Seq<char>>, i: int) {
    if 0 <= i <= text.len() {
        lemma_next_sp(text, al, i);
        let p = next_sp(text, al, i);
        if p < text.len() {
            lemma_tok_match_at(text, al, p);
        }
    }
}

/// First position at or after `j` where the closing delimiter `|>` starts,
/// or `text.len()`.
pub open spec fn find_close(text: Seq<char>, j: int) -> int
    decreases text.len() - j,
{
    if !(0 <= j < text.len()) {
        text.len() as int
    } else if text[j] == '|' && j + 1 < text.len() && text[j + 1] == '>' {
        j
    } else {
        find_close(text, j + 1)
    }
}

pub proof fn lemma_find_close(text: Seq<char>, j: int)
    requires
        0 <= j <= text.len(),
    ensures
        j <= find_close(text, j) <= text.len(),
        find_close(text, j) < text.len() ==> find_close(text, j) + 1 < text.len(),
    decreases text.len() - j,
{
    if j < text.len() && !(text[j] == '|' && j + 1 < text.len() && text[j + 1] == '>') {
        lemma_find_close(text, j + 1);
    }
}

/// Whether a special-token-shaped literal starts at `i` and is not in the
/// allowed set: an opening `<|` whose literal runs to the first following
/// closing `|>`.
pub open spec fn disallowed_at(text: Seq<char>, al: Seq<Seq<char>>, i: int) -> bool {
    &&& 0 <= i
    &&& i + 1 < text.len()
    &&& text[i] == '<'
    &&& text[i + 1] == '|'
    &&& find_close(text, i + 2) < text.len()
    &&& !al.contains(text.subrange(i, find_close(text, i + 2) + 2))
}

/// Whether any special-token-shaped literal outside the allowed set occurs.
pub open spec fn any_disallowed(text: Seq<char>, al: Seq<Seq<char>>) -> bool {
    exists|i: int| disallowed_at(text, al, i)
}

/// The full encoding contract.  Without allowed special tokens the text is
/// encoded by segmentation alone.  With a non-empty allowed set, an empty
/// allowed token is `InvalidInput`; otherwise the allowed literals are carved
/// out, and a reserved-looking literal outside the allowed set makes the
/// whole encoding fail with `InvalidData`.
pub open spec fn encode_spec(
    t: BPETokenizer,
    text: Seq<char>,
    allowed: Option<Seq<Seq<char>>>,
) -> Result<Seq<usize>, TokError> {
    match allowed {
        Option::None => encode_ns_spec(t, text),
        Option::Some(al) => {
            if al.len() == 0 {
                encode_ns_spec(t, text)
            } else if exists|k: int| 0 <= k < al.len() && (#[trigger] al[k]).len() == 0 {
                Err(TokError::InvalidInput)
            } else {
                match enc_carve(t, text, al, 0) {
                    Err(e) => Err(e),
                    Ok(ids) => if any_disallowed(text, al) {
                        Err(TokError::InvalidData)
                    } else {
                        Ok(ids)
                    },
                }
            }
        },
    }
}

pub proof fn lemma_cat_ids_assoc(a: Seq<usize>, b: Seq<usize>, r: Result<Seq<usize>, TokError>)
    ensures
        cat_ids(a, cat_ids(b, r)) == cat_ids(a + b, r),
{
    match r {
        Ok(v) => {
            assert(a + (b + v) =~= (a + b) + v);
        },
        Err(_) => {},
    }
}

/// Unfolds one step of the carve-out at a position where an allowed token
/// matches and both the span before it and the token's lookup succeed.
proof fn lemma_carve_step(
    t: BPETokenizer,
    text: Seq<char>,
    al: Seq<Seq<char>>,
    i: int,
    p: int,
    k: int,
    pv: Seq<usize>,
    id: usize,
)
    requires
        0 <= i <= text.len(),
        p == next_sp(text, al, i),
        p < text.len(),
        k == tok_match_at(text, al, p),
        0 <= k < al.len(),
        al[k].len() > 0,
        enc_segs(t, segs_of(text.subrange(i, p)), 0) == Ok::<Seq<usize>, TokError>(pv),
        has_tok(t.toks(), al[k]),
        id as int == idx_of(t.toks(), al[k]),
    ensures
        enc_carve(t, text, al, i) == cat_ids(pv.push(id), enc_carve(t, text, al, p + al[k].len())),
{
    lemma_next_sp(text, al, i);
    lemma_tok_match_at(text, al, p);
    let tk = al[k];
    assert(idx_of(t.toks(), tk) as usize == id);
    match enc_carve(t, text, al, p + tk.len()) {
        Ok(c) => {
            assert(pv + seq![idx_of(t.toks(), tk) as usize] + c =~= pv.push(id) + c);
            assert(enc_carve(t, text, al, i) == Ok::<Seq<usize>, TokError>(pv.push(id) + c));
        },
        Err(e) => {
            assert(enc_carve(t, text, al, i) == Err::<Seq<usize>, TokError>(e));
        },
    }
}

/// The allowed-special argument as string sequences.
pub open spec fn allowed_view(a: Option<&Vec<String>>) -> Option<Seq<Seq<char>>> {
    match a {
        Option::None => Option::None,
        Option::Some(v) => Option::Some(v.deep_view()),
    }
}

/// Whether `lit` is one of the strings in `al`.
pub(crate) fn contains_str(al: &Vec<Vec<char>>, lit: &Vec<char>) -> (r: bool)
    ensures
        r == al.deep_view().contains(lit@),
{
    let ghost aldv = al.deep_view();
    let mut k: usize = 0;
    while k < al.len()
        invariant
            k <= al@.len(),
            aldv == al.deep_view(),
            aldv.len() == al@.len(),
            forall|m: int| 0 <= m < k ==> aldv[m] != lit@,
        decreases al@.len() - k,
    {
        proof {
            assert(aldv[k as int] == al@[k as int]@);
        }
        if eq_chars(&al[k], lit) {
            proof {
                assert(aldv.contains(lit@)) by {
                    assert(aldv[k as int] == lit@);
                }
            }
            return true;
        }
        k = k + 1;
    }
    proof {
        if aldv.contains(lit@) {
            let m = choose|m: int| 0 <= m < aldv.len() && aldv[m] == lit@;
            assert(false);
        }
    }
    false
}

/// Whether `tok` occurs literally in `text` at position `p`.
fn match_at(text: &Vec<char>, p: usize, tok: &Vec<char>) -> (r: bool)
    requires
        p <= text@.len(),
    ensures
        r == is_match(text@, p as int, tok@),
{
    if tok.len() == 0 || tok.len() > text.len() - p {
        return false;
    }
    let mut q: usize = 0;
    while q < tok.len()
        invariant
            q <= tok@.len(),
            p + tok@.len() <= text@.len(),
            forall|m: int| 0 <= m < q ==> text@[p + m] == tok@[m],
        decreases tok@.len() - q,
    {
        if text[p + q] != tok[q] {
            proof {
                assert(text@.subrange(p as int, p + tok@.len()) != tok@) by {
                    assert(text@.subrange(p as int, p + tok@.len())[q as int] == text@[p + q]);
                }
            }
            return false;
        }
        q = q + 1;
    }
    proof {
        assert(text@.subrange(p as int, p + tok@.len()) =~= tok@);
    }
    true
}

/// First allowed token matching at `p`, as an index into `al`.
fn first_tok_match(text: &Vec<char>, al: &Vec<Vec<char>>, p: usize) -> (r: usize)
    requires
        p <= text@.len(),
    ensures
        r == tok_match_at(text@, al.deep_view(), p as int),
{
    let ghost aldv = al.deep_view();
    proof {
        lemma_tok_match_at(text@, aldv, p as int);
    }
    let mut k: usize = 0;
    while k < al.len()
        invariant
            k <= al@.len(),
            aldv == al.deep_view(),
            aldv.len() == al@.len(),
            forall|m: int| 0 <= m < k ==> !is_match(text@, p as int, aldv[m]),
        decreases al@.len() - k,
    {
        proof {
            assert(aldv[k as int] == al@[k as int]@);
        }
        if match_at(text, p, &al[k]) {
            return k;
        }
        k = k + 1;
    }
    k
}

/// Earliest position at or after `from` where an allowed token matches.
fn find_next_special(text: &Vec<char>, al: &Vec<Vec<char>>, from: usize) -> (r: usize)
    requires
        from <= text@.len(),
    ensures
        r == next_sp(text@, al.deep_view(), from as int),
        from <= r <= text@.len(),
{
    let ghost aldv = al.deep_view();
    proof {
        lemma_next_sp(text@, aldv, from as int);
    }
    let mut p: usize = from;
    while p < text.len()
        invariant
            from <= p <= text@.len(),
            aldv == al.deep_view(),
            next_sp(text@, aldv, from as int) == next_sp(text@, aldv, p as int),
        decreases text@.len() - p,
    {
        let k = first_tok_match(text, al, p);
        if k < al.len() {
            return p;
        }
        p = p + 1;
    }
    p
}

/// Exec twin of [`find_close`].
fn find_close_at(text: &Vec<char>, from: usize) -> (r: usize)
    requires
        from <= text@.len(),
    ensures
        r == find_close(text@, from as int),
        from <= r <= text@.len(),
{
    proof {
        lemma_find_close(text@, from as int);
    }
    let mut j: usize = from;
    while j < text.len()
        invariant
            from <= j <= text@.len(),
            find_close(text@, from as int) == find_close(text@, j as int),
        decreases text@.len() - j,
    {
        if text[j] == '|' && j + 1 < text.len() && text[j + 1] == '>' {
            return j;
        }
        j = j + 1;
    }
    j
}

/// Whether the text holds a special-token-shaped literal outside `al`.
fn scan_disallowed(text: &Vec<char>, al: &Vec<Vec<char>>) -> (r: bool)
    ensures
        r == any_disallowed(text@, al.deep_view()),
{
    let ghost aldv = al.deep_view();
    let mut i: usize = 0;
    while i < text.len()
        invariant
            i <= text@.len(),
            aldv == al.deep_view(),
            forall|m: int| m < i ==> !disallowed_at(text@, aldv, m),
        decreases text@.len() - i,
    {
        if text[i] == '<' && i + 1 < text.len() && text[i + 1] == '|' {
            let j = find_close_at(text, i + 2);
            if j < text.len() {
                proof {
                    lemma_find_close(text@, i + 2);
                }
                let lit = crate::text::subvec(text, i, j + 2);
                if !contains_str(al, &lit) {
                    proof {
                        assert(disallowed_at(text@, aldv, i as int));
                    }
                    return true;
                }
            }
        }
        i = i + 1;
    }
    proof {
        if any_disallowed(text@, aldv) {
            let m = choose|m: int| disallowed_at(text@, aldv, m);
            assert(false);
        }
    }
    false
}

impl BPETokenizer {
    /// Encodes a character sequence without special-token handling.
    fn encode_ns_chars(&self, t: &Vec<char>) -> (r: Result<Vec<usize>, TokError>)
        ensures
            ids_result_view(r) == encode_ns_spec(*self, t@),
            self.wf() && r is Ok ==> ids_below(r->Ok_0@, self.toks().len()),
    {
        let segs = crate::text::split_segments(t);
        let ghost sdv = segs.deep_view();
        let mut out: Vec<usize> = Vec::new();
        let mut i: usize = 0;
        proof {
            assert(out@ + Seq::<usize>::empty() =~= out@);
        }
        while i < segs.len()
            invariant
                i <= segs@.len(),
                sdv == segs.deep_view(),
                sdv.len() == segs@.len(),
                enc_segs(*self, sdv, 0) == cat_ids(out@, enc_segs(*self, sdv, i as int)),
                self.wf() ==> ids_below(out@, self.toks().len()),
            decreases segs@.len() - i,
        {
            proof {
                assert(sdv[i as int] == segs@[i as int]@);
            }
            let ghost pre = out@;
            let mut step: Vec<usize> = Vec::new();
            match self.vocab.id_of(&segs[i]) {
                Ok(id) => {
                    step.push(id);
                    proof {
                        assert(has_tok(self.toks(), sdv[i as int])) by {
                            assert(self.toks()[id as int] == sdv[i as int]);
                        }
                        crate::vocab::lemma_idx_of(self.toks(), sdv[i as int]);
                        assert(step@ =~= seq![idx_of(self.toks(), sdv[i as int]) as usize]);
                    }
                },
                Err(_) => {
                    match self.tokenize_with_bpe(&segs[i]) {
                        Ok(ids) => {
                            step = ids;
                        },
                        Err(e) => {
                            proof {
                                assert(enc_segs(*self, sdv, i as int) == Err::<Seq<usize>, TokError>(
                                    e,
                                ));
                            }
                            return Err(e);
                        },
                    }
                },
            }
            let ghost stepv = step@;
            proof {
                assert(enc_segs(*self, sdv, i as int) == cat_ids(
                    stepv,
                    enc_segs(*self, sdv, i + 1),
                ));
                assert forall|rr: Result<Seq<usize>, TokError>|
                    cat_ids(pre, cat_ids(stepv, rr)) == cat_ids(pre + stepv, rr) by {
                    match rr {
                        Ok(v) => {
                            assert(pre + (stepv + v) =~= (pre + stepv) + v);
                        },
                        Err(_) => {},
                    }
                }
            }
            let mut step2 = step;
            out.append(&mut step2);
            i = i + 1;
        }
        proof {
            assert(enc_segs(*self, sdv, sdv.len() as int) == Ok::<Seq<usize>, TokError>(seq![]));
            assert(out@ + Seq::<usize>::empty() =~= out@);
        }
        Ok(out)
    }

    /// Encodes a text without special-token handling: lines and words are
    /// segmented, each segment is looked up or byte-pair merged.
    pub fn encode_no_special(&self, text: &str) -> (r: Result<Vec<usize>, TokError>)
        ensures
            ids_result_view(r) == encode_ns_spec(*self, text@),
            self.wf() && r is Ok ==> ids_below(r->Ok_0@, self.toks().len()),
    {
        let tv = to_chars(text);
        self.encode_ns_chars(&tv)
    }

    /// Encodes a text into token IDs.  When `allowed_special` is supplied
    /// and non-empty, occurrences of the allowed special tokens are carved
    /// out as single atomic IDs, and any special-token-shaped literal not in
    /// the allowed set makes the call fail with `InvalidData`.
    #[verifier::rlimit(60)]
    pub fn encode(&self, text: &str, allowed_special: Option<&Vec<String>>) -> (r: Result<
        Vec<usize>,
        TokError,
    >)
        ensures
            ids_result_view(r) == encode_spec(*self, text@, allowed_view(allowed_special)),
            self.wf() && r is Ok ==> ids_below(r->Ok_0@, self.toks().len()),
    {
        let tv = to_chars(text);
        let al_s = match allowed_special {
            None => {
                return self.encode_ns_chars(&tv);
            },
            Some(al_s) => al_s,
        };
        if al_s.len() == 0 {
            return self.encode_ns_chars(&tv);
        }
        // Convert the allowed tokens; an empty one is invalid input.
        let ghost goal = al_s.deep_view();
        let mut al: Vec<Vec<char>> = Vec::new();
        let mut k: usize = 0;
        while k < al_s.len()
            invariant
                k <= al_s@.len(),
                goal == al_s.deep_view(),
                goal.len() == al_s@.len(),
                al.deep_view() =~~= goal.take(k as int),
                forall|m: int| 0 <= m < k ==> (#[trigger] goal[m]).len() > 0,
            decreases al_s@.len() - k,
        {
            let ghost before = al.deep_view();
            let cs = to_chars(al_s[k].as_str());
            if cs.len() == 0 {
                proof {
                    assert(goal[k as int] == al_s@[k as int]@);
                    assert(goal[k as int].len() == 0);
                }
                return Err(TokError::InvalidInput);
            }
            al.push(cs);
            proof {
                assert(goal[k as int] == al_s@[k as int]@);
                assert(al.deep_view() =~~= before.push(goal[k as int]));
                assert(al.deep_view() =~~= goal.take(k + 1));
            }
            k = k + 1;
        }
        proof {
            assert(al.deep_view() =~~= goal);
            assert(!(exists|m: int| 0 <= m < goal.len() && (#[trigger] goal[m]).len() == 0));
        }
        let ghost aldv = al.deep_view();
        let ghost tvv = tv@;
        // Carve out the allowed special tokens, left to right.
        let mut out: Vec<usize> = Vec::new();
        let mut pos: usize = 0;
        let mut more: usize = 1;
        proof {
            assert(out@ + Seq::<usize>::empty() =~= out@);
        }
        while more == 1
            invariant
                more <= 1,
                pos <= tvv.len(),
                tvv == tv@,
                aldv == al.deep_view(),
                aldv == goal,
                enc_carve(*self, tvv, aldv, 0) == cat_ids(
                    out@,
                    enc_carve(*self, tvv, aldv, pos as int),
                ),
                self.wf() ==> ids_below(out@, self.toks().len()),
                more == 0 ==> next_sp(tvv, aldv, pos as int) == tvv.len(),
            decreases tvv.len() - pos + more,
        {
            let p = find_next_special(&tv, &al, pos);
            if p == tv.len() {
                more = 0;
            } else {
                proof {
                    lemma_next_sp(tvv, aldv, pos as int);
                    lemma_tok_match_at(tvv, aldv, p as int);
                }
                let k2 = first_tok_match(&tv, &al, p);
                proof {
                    assert(k2 < aldv.len());
                    assert(is_match(tvv, p as int, aldv[k2 as int]));
                    assert(aldv[k2 as int] == al@[k2 as int]@);
                    assert(aldv[k2 as int].len() > 0);
                }
                let ghost pre0 = out@;
                // The span before the match.
                let span = crate::text::subvec(&tv, pos, p);
                let mut pids = match self.encode_ns_chars(&span) {
                    Ok(ids) => ids,
                    Err(e) => {
                        proof {
                            assert(enc_carve(*self, tvv, aldv, pos as int) == Err::<
                                Seq<usize>,
                                TokError,
                            >(e));
                        }
                        return Err(e);
                    },
                };
                let ghost pv = pids@;
                out.append(&mut pids);
                // The matched special token itself.
                let id = match self.vocab.id_of(&al[k2]) {
                    Ok(id) => id,
                    Err(_) => {
                        proof {
                            crate::vocab::lemma_idx_of(self.toks(), aldv[k2 as int]);
                            assert(enc_carve(*self, tvv, aldv, pos as int) == Err::<
                                Seq<usize>,
                                TokError,
                            >(TokError::NotFound));
                            assert(cat_ids(pre0, enc_carve(*self, tvv, aldv, pos as int)) == Err::<
                                Seq<usize>,
                                TokError,
                            >(TokError::NotFound));
                        }
                        return Err(TokError::NotFound);
                    },
                };
                out.push(id);
                proof {
                    assert(has_tok(self.toks(), aldv[k2 as int])) by {
                        assert(self.toks()[id as int] == aldv[k2 as int]);
                    }
                    lemma_carve_step(*self, tvv, aldv, pos as int, p as int, k2 as int, pv, id);
                    lemma_cat_ids_assoc(
                        pre0,
                        pv.push(id),
                        enc_carve(*self, tvv, aldv, p + aldv[k2 as int].len()),
                    );
                    assert(out@ =~= pre0 + pv.push(id));
                }
                pos = p + al[k2].len();
            }
        }
        // The remainder after the last match.
        let rest = crate::text::subvec(&tv, pos, tv.len());
        let mut rids = match self.encode_ns_chars(&rest) {
            Ok(ids) => ids,
            Err(e) => {
                proof {
                    assert(enc_carve(*self, tvv, aldv, pos as int) == Err::<Seq<usize>, TokError>(
                        e,
                    ));
                }
                return Err(e);
            },
        };
        out.append(&mut rids);
        proof {
            assert(enc_carve(*self, tvv, aldv, 0) == Ok::<Seq<usize>, TokError>(out@));
        }
        // Re-scan the original text for reserved-looking literals that were
        // not allowed.
        if scan_disallowed(&tv, &al) {
            return Err(TokError::InvalidData);
        }
        Ok(out)
    }
}

} // verus!
