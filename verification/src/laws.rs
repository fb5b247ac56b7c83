//! The library's laws: determinism, special-token atomicity, and the
//! encode/decode round trip, proved against the specification functions that
//! the executable functions' contracts are stated over.

use vstd::prelude::*;
use crate::text::marker;
use crate::text::is_ws;
use crate::text::find_nl;
use crate::text::find_ws;
use crate::text::lemma_find_nl;
use crate::text::lemma_find_ws;
use crate::text::lines_from;
use crate::text::words_from;
use crate::text::line_tokens;
use crate::text::segs_of_lines;
use crate::text::segs_of;
use crate::vocab::idx_of;
use crate::vocab::has_tok;
use crate::vocab::lemma_idx_of;
use crate::tokenizer::BPETokenizer;
use crate::tokenizer::MergeRule;
use crate::tokenizer::char_ids_from;
use crate::tokenizer::rule_idx;
use crate::tokenizer::lemma_rule_idx;
use crate::tokenizer::pair_pass;
use crate::tokenizer::pair_rounds;
use crate::tokenizer::lemma_pair_pass_le;
use crate::tokenizer::bpe_spec;
use crate::tokenizer::enc_segs;
use crate::tokenizer::encode_ns_spec;
use crate::tokenizer::encode_spec;
use crate::tokenizer::enc_carve;
use crate::tokenizer::next_sp;
use crate::tokenizer::tok_match_at;
use crate::tokenizer::is_match;
use crate::tokenizer::any_disallowed;
use crate::tokenizer::dec_from;
use crate::tokenizer::dec_step;
use crate::tokenizer::decode_spec;
use crate::train::train_spec;
use crate::TokError;

verus! {

/// Determinism of training: the same corpus, target size and special
/// tokens always produce the same vocabulary, merge table and rank list.
/// `train` ensures its result equals `train_spec` of its inputs, so two
/// runs agree.
pub proof fn lemma_train_deterministic(
    text: Seq<char>,
    target: usize,
    sp: Seq<Seq<char>>,
    r1: Result<(Seq<Seq<char>>, Seq<MergeRule>, Seq<(Seq<char>, Seq<char>)>), TokError>,
    r2: Result<(Seq<Seq<char>>, Seq<MergeRule>, Seq<(Seq<char>, Seq<char>)>), TokError>,
)
    requires
        r1 == train_spec(text, target, sp),
        r2 == train_spec(text, target, sp),
    ensures
        r1 == r2,
{
}

/// Determinism of encoding: the same tokenizer, text and allowed set always
/// yield the same ID sequence.  `encode` ensures its result equals
/// `encode_spec` of its inputs, so two calls agree.
pub proof fn lemma_encode_deterministic(
    t: BPETokenizer,
    text: Seq<char>,
    allowed: Option<Seq<Seq<char>>>,
    r1: Result<Seq<usize>, TokError>,
    r2: Result<Seq<usize>, TokError>,
)
    requires
        r1 == encode_spec(t, text, allowed),
        r2 == encode_spec(t, text, allowed),
    ensures
        r1 == r2,
{
}

/// Encoding a text that holds a reserved-looking literal outside the
/// allowed set fails: either with `InvalidData` from the re-scan, or with
/// an error that already stopped the carve-out.
pub proof fn lemma_disallowed_special_fails(t: BPETokenizer, text: Seq<char>, al: Seq<Seq<char>>)
    requires
        al.len() > 0,
        forall|k: int| 0 <= k < al.len() ==> (#[trigger] al[k]).len() > 0,
        any_disallowed(text, al),
    ensures
        encode_spec(t, text, Option::Some(al)) is Err,
{
    match enc_carve(t, text, al, 0) {
        Ok(_) => {},
        Err(_) => {},
    }
}

/// The segments of a text with no whitespace at all: the text itself, as
/// one bare word.
pub proof fn lemma_segs_single_word(text: Seq<char>)
    requires
        text.len() > 0,
        forall|i: int| 0 <= i < text.len() ==> !is_ws(#[trigger] text[i]),
    ensures
        segs_of(text) == seq![text],
{
    lemma_find_nl(text, 0);
    assert(find_nl(text, 0) == text.len()) by {
        if find_nl(text, 0) < text.len() {
            assert(text[find_nl(text, 0)] == '\n');
            assert(is_ws(text[find_nl(text, 0)]));
        }
    }
    assert(lines_from(text, 0) == seq![text.subrange(0, text.len() as int)]);
    assert(text.subrange(0, text.len() as int) =~= text);
    let lines = lines_from(text, 0);
    lemma_find_ws(text, 0);
    assert(find_ws(text, 0) == text.len()) by {
        if find_ws(text, 0) < text.len() {
            assert(is_ws(text[find_ws(text, 0)]));
        }
    }
    assert(words_from(text, 0) =~~= seq![text.subrange(0, text.len() as int)] + words_from(
        text,
        text.len() as int,
    ));
    assert(words_from(text, text.len() as int) =~~= Seq::<Seq<char>>::empty());
    assert(words_from(text, 0) =~~= seq![text]);
    assert(line_tokens(seq![text], true) =~~= seq![text]);
    assert(segs_of_lines(lines, 1) =~~= Seq::<Seq<char>>::empty());
    assert(segs_of(text) =~~= Seq::<Seq<char>>::empty() + line_tokens(
        words_from(lines[0], 0),
        true,
    ) + Seq::<Seq<char>>::empty());
    assert(segs_of(text) =~~= seq![text]);
}

/// The segments of the empty text: none.
pub proof fn lemma_segs_empty()
    ensures
        segs_of(Seq::<char>::empty()) == Seq::<Seq<char>>::empty(),
{
    let e = Seq::<char>::empty();
    assert(lines_from(e, 0) == seq![e.subrange(0, 0)]);
    assert(e.subrange(0, 0) =~= e);
    assert(words_from(e, 0) =~~= Seq::<Seq<char>>::empty());
    assert(line_tokens(words_from(e, 0), true) =~~= Seq::<Seq<char>>::empty());
    assert(segs_of_lines(lines_from(e, 0), 1) =~~= Seq::<Seq<char>>::empty());
    assert(segs_of(e) =~~= Seq::<Seq<char>>::empty());
}

/// Special-token atomicity: a text that is exactly one allowed special
/// token never comes out split; it encodes to that token's single ID (or
/// the whole call fails on the re-scan, when the token itself harbours a
/// reserved-looking literal outside the allowed set).
pub proof fn lemma_special_token_atomic(t: BPETokenizer, s: Seq<char>)
    requires
        t.toks().len() <= usize::MAX,
        s.len() > 0,
        has_tok(t.toks(), s),
    ensures
        !any_disallowed(s, seq![s]) ==> encode_spec(t, s, Option::Some(seq![s])) == Ok::<
            Seq<usize>,
            TokError,
        >(seq![idx_of(t.toks(), s) as usize]),
        any_disallowed(s, seq![s]) ==> encode_spec(t, s, Option::Some(seq![s])) == Err::<
            Seq<usize>,
            TokError,
        >(TokError::InvalidData),
{
    let v = t.toks();
    let al = seq![s];
    lemma_idx_of(v, s);
    assert(!(exists|k: int| 0 <= k < al.len() && (#[trigger] al[k]).len() == 0)) by {
        if exists|k: int| 0 <= k < al.len() && (#[trigger] al[k]).len() == 0 {
            let k = choose|k: int| 0 <= k < al.len() && (#[trigger] al[k]).len() == 0;
            assert(al[k] == s);
        }
    }
    // The whole text matches the single allowed token at position zero.
    assert(is_match(s, 0, al[0])) by {
        assert(s.subrange(0, s.len() as int) =~= s);
    }
    assert(tok_match_at(s, al, 0) == 0);
    assert(next_sp(s, al, 0) == 0);
    // The empty span before the match encodes to nothing.
    lemma_segs_empty();
    assert(s.subrange(0, 0) =~= Seq::<char>::empty());
    assert(enc_segs(t, segs_of(s.subrange(0, 0)), 0) == Ok::<Seq<usize>, TokError>(seq![]));
    // Nothing follows the match.
    assert(next_sp(s, al, s.len() as int) == s.len());
    assert(s.subrange(s.len() as int, s.len() as int) =~= Seq::<char>::empty());
    assert(enc_carve(t, s, al, s.len() as int) == Ok::<Seq<usize>, TokError>(seq![]));
    let id = idx_of(v, s) as usize;
    assert(enc_carve(t, s, al, 0) == Ok::<Seq<usize>, TokError>(
        seq![] + seq![id] + seq![],
    ));
    assert(seq![] + seq![id] + seq![] =~= seq![id]);
}

/// The concatenation of the token strings of `ids[i..]`.
pub open spec fn cat_toks(v: Seq<Seq<char>>, ids: Seq<usize>, i: int) -> Seq<char>
    decreases ids.len() - i,
{
    if !(0 <= i < ids.len()) {
        seq![]
    } else {
        v[ids[i] as int] + cat_toks(v, ids, i + 1)
    }
}

/// Character-level decomposition spells the segment exactly, with all IDs
/// in range.
pub proof fn lemma_char_ids_cat(v: Seq<Seq<char>>, s: Seq<char>, i: int, ids: Seq<usize>)
    requires
        v.len() <= usize::MAX,
        0 <= i <= s.len(),
        char_ids_from(v, s, i) == Ok::<Seq<usize>, TokError>(ids),
    ensures
        cat_toks(v, ids, 0) == s.skip(i),
        forall|j: int| 0 <= j < ids.len() ==> (#[trigger] ids[j]) < v.len(),
    decreases s.len() - i,
{
    if i == s.len() {
        assert(ids =~= Seq::<usize>::empty());
        assert(cat_toks(v, ids, 0) =~= s.skip(i));
    } else {
        let id = idx_of(v, seq![s[i]]);
        lemma_idx_of(v, seq![s[i]]);
        assert(id < v.len());
        match char_ids_from(v, s, i + 1) {
            Ok(rest) => {
                lemma_char_ids_cat(v, s, i + 1, rest);
                assert(ids == seq![id as usize] + rest);
                assert(cat_toks(v, ids, 0) =~= v[ids[0] as int] + cat_toks(v, ids, 1));
                assert(ids.skip(1) =~= rest);
                lemma_cat_toks_shift(v, ids, 1);
                assert(v[id] == seq![s[i]]);
                assert(cat_toks(v, ids, 0) =~= seq![s[i]] + s.skip(i + 1));
                assert(seq![s[i]] + s.skip(i + 1) =~= s.skip(i));
                assert forall|j: int| 0 <= j < ids.len() implies (#[trigger] ids[j]) < v.len() by {
                    if j > 0 {
                        assert(ids[j] == rest[j - 1]);
                    }
                }
            },
            Err(_) => {
                assert(false);
            },
        }
    }
}

/// Concatenation over a shifted view: dropping a prefix of the ID list
/// drops the corresponding token strings.
pub proof fn lemma_cat_toks_shift(v: Seq<Seq<char>>, ids: Seq<usize>, i: int)
    requires
        0 <= i <= ids.len(),
    ensures
        cat_toks(v, ids, i) == cat_toks(v, ids.skip(i), 0),
    decreases ids.len() - i,
{
    if i < ids.len() {
        let rest = ids.skip(i);
        assert(rest[0] == ids[i]);
        lemma_cat_toks_shift(v, ids, i + 1);
        lemma_cat_toks_shift(v, rest, 1);
        assert(rest.skip(1) =~= ids.skip(i + 1));
    } else {
        assert(ids.skip(i) =~= Seq::<usize>::empty());
    }
}

/// Unfolding helper: concatenation from the head of a list.
pub proof fn lemma_cat_toks_shift2(v: Seq<Seq<char>>, ids: Seq<usize>)
    requires
        ids.len() > 0,
    ensures
        cat_toks(v, ids, 0) == v[ids[0] as int] + cat_toks(v, ids.skip(1), 0),
{
    lemma_cat_toks_shift(v, ids, 1);
}

/// One merging pass preserves the spelled-out text and ID validity.
pub proof fn lemma_pass_cat(t: BPETokenizer, ids: Seq<usize>)
    requires
        t.wf(),
        t.merges_sound(),
        forall|j: int| 0 <= j < ids.len() ==> (#[trigger] ids[j]) < t.toks().len(),
    ensures
        cat_toks(t.toks(), pair_pass(t.merges@, ids), 0) == cat_toks(t.toks(), ids, 0),
        forall|j: int|
            0 <= j < pair_pass(t.merges@, ids).len() ==> (#[trigger] pair_pass(t.merges@, ids)[j])
                < t.toks().len(),
    decreases ids.len(),
{
    let v = t.toks();
    let m = t.merges@;
    if ids.len() >= 2 {
        let k = rule_idx(m, ids[0], ids[1]);
        lemma_rule_idx(m, ids[0], ids[1]);
        if k < m.len() {
            assert(forall|j: int|
                0 <= j < ids.skip(2).len() ==> (#[trigger] ids.skip(2)[j]) < v.len());
            lemma_pass_cat(t, ids.skip(2));
            let tail = pair_pass(m, ids.skip(2));
            assert(pair_pass(m, ids) == seq![m[k].merged] + tail);
            lemma_cat_toks_shift2(v, seq![m[k].merged] + tail);
            assert((seq![m[k].merged] + tail)[0] == m[k].merged);
            assert((seq![m[k].merged] + tail).skip(1) =~= tail);
            assert(v[m[k].merged as int] == v[m[k].left as int] + v[m[k].right as int]);
            assert(m[k].left == ids[0] && m[k].right == ids[1]);
            lemma_cat_toks_shift2(v, ids);
            lemma_cat_toks_shift2(v, ids.skip(1));
            assert(ids.skip(1)[0] == ids[1]);
            assert(ids.skip(1).skip(1) =~= ids.skip(2));
            lemma_cat_toks_shift(v, ids, 2);
            assert(cat_toks(v, pair_pass(m, ids), 0) =~= cat_toks(v, ids, 0));
            assert forall|j: int|
                0 <= j < pair_pass(m, ids).len() implies (#[trigger] pair_pass(m, ids)[j])
                < v.len() by {
                if j > 0 {
                    assert(pair_pass(m, ids)[j] == tail[j - 1]);
                }
            }
        } else {
            assert(forall|j: int|
                0 <= j < ids.skip(1).len() ==> (#[trigger] ids.skip(1)[j]) < v.len());
            lemma_pass_cat(t, ids.skip(1));
            let tail = pair_pass(m, ids.skip(1));
            assert(pair_pass(m, ids) == seq![ids[0]] + tail);
            lemma_cat_toks_shift2(v, seq![ids[0]] + tail);
            assert((seq![ids[0]] + tail)[0] == ids[0]);
            assert((seq![ids[0]] + tail).skip(1) =~= tail);
            lemma_cat_toks_shift2(v, ids);
            assert(cat_toks(v, pair_pass(m, ids), 0) =~= cat_toks(v, ids, 0));
            assert forall|j: int|
                0 <= j < pair_pass(m, ids).len() implies (#[trigger] pair_pass(m, ids)[j])
                < v.len() by {
                if j > 0 {
                    assert(pair_pass(m, ids)[j] == tail[j - 1]);
                }
            }
        }
    }
}

/// Repeated merging preserves the spelled-out text and ID validity.
pub proof fn lemma_rounds_cat(t: BPETokenizer, ids: Seq<usize>)
    requires
        t.wf(),
        t.merges_sound(),
        forall|j: int| 0 <= j < ids.len() ==> (#[trigger] ids[j]) < t.toks().len(),
    ensures
        cat_toks(t.toks(), pair_rounds(t.merges@, ids), 0) == cat_toks(t.toks(), ids, 0),
        forall|j: int|
            0 <= j < pair_rounds(t.merges@, ids).len() ==> (#[trigger] pair_rounds(
                t.merges@,
                ids,
            )[j]) < t.toks().len(),
    decreases ids.len(),
{
    let m = t.merges@;
    if ids.len() <= 1 {
    } else {
        let nxt = pair_pass(m, ids);
        lemma_pass_cat(t, ids);
        lemma_pair_pass_le(m, ids);
        if nxt.len() == ids.len() {
        } else {
            lemma_rounds_cat(t, nxt);
        }
    }
}

/// Tokens spelled inside a clean concatenation are themselves clean: they
/// are not the newline token and do not begin with the space marker.
pub proof fn lemma_cat_clean(v: Seq<Seq<char>>, ids: Seq<usize>, i: int)
    requires
        0 <= i,
        forall|p: int|
            0 <= p < cat_toks(v, ids, i).len() ==> cat_toks(v, ids, i)[p] != marker()
                && cat_toks(v, ids, i)[p] != '\n',
    ensures
        forall|j: int|
            i <= j < ids.len() ==> v[(#[trigger] ids[j]) as int] != seq!['\n'] && (v[ids[j] as int].len()
                > 0 ==> v[ids[j] as int][0] != marker()),
    decreases ids.len() - i,
{
    if 0 <= i < ids.len() {
        let head = v[ids[i] as int];
        let rest = cat_toks(v, ids, i + 1);
        assert(cat_toks(v, ids, i) == head + rest);
        assert forall|p: int| 0 <= p < rest.len() implies rest[p] != marker() && rest[p]
            != '\n' by {
            assert(cat_toks(v, ids, i)[head.len() + p] == rest[p]);
        }
        lemma_cat_clean(v, ids, i + 1);
        if head.len() > 0 {
            assert(cat_toks(v, ids, i)[0] == head[0]);
        }
        if head == seq!['\n'] {
            assert(cat_toks(v, ids, i)[0] == '\n');
        }
    }
}

/// Decoding a list of clean tokens appends their spelling verbatim.
pub proof fn lemma_decode_verbatim(v: Seq<Seq<char>>, ids: Seq<usize>, i: int, acc: Seq<char>)
    requires
        0 <= i <= ids.len(),
        forall|j: int| i <= j < ids.len() ==> (#[trigger] ids[j]) < v.len(),
        forall|j: int|
            i <= j < ids.len() ==> v[(#[trigger] ids[j]) as int] != seq!['\n'] && (v[ids[j] as int].len()
                > 0 ==> v[ids[j] as int][0] != marker()),
    ensures
        dec_from(v, ids, i, acc) == Ok::<Seq<char>, TokError>(acc + cat_toks(v, ids, i)),
    decreases ids.len() - i,
{
    if i == ids.len() {
        assert(acc + cat_toks(v, ids, i) =~= acc);
    } else {
        let head = v[ids[i] as int];
        assert(dec_step(acc, head) == acc + head);
        lemma_decode_verbatim(v, ids, i + 1, acc + head);
        assert(acc + head + cat_toks(v, ids, i + 1) =~= acc + (head + cat_toks(v, ids, i + 1)));
    }
}

/// All single characters present means the decomposition succeeds.
pub proof fn lemma_char_ids_ok(v: Seq<Seq<char>>, s: Seq<char>, i: int)
    requires
        0 <= i <= s.len(),
        forall|p: int| 0 <= p < s.len() ==> has_tok(v, seq![#[trigger] s[p]]),
    ensures
        char_ids_from(v, s, i) is Ok,
    decreases s.len() - i,
{
    if i < s.len() {
        lemma_idx_of(v, seq![s[i]]);
        lemma_char_ids_ok(v, s, i + 1);
    }
}

/// The concatenation of the token strings of `ids[i..j]`.
pub open spec fn cat_to(v: Seq<Seq<char>>, ids: Seq<usize>, i: int, j: int) -> Seq<char>
    decreases j - i,
{
    if !(0 <= i < j <= ids.len()) {
        seq![]
    } else {
        v[ids[i] as int] + cat_to(v, ids, i + 1, j)
    }
}

/// A clean prefix of the ID list decodes verbatim, leaving the rest.
pub proof fn lemma_decode_verbatim_to(
    v: Seq<Seq<char>>,
    ids: Seq<usize>,
    i: int,
    j: int,
    acc: Seq<char>,
)
    requires
        0 <= i <= j <= ids.len(),
        forall|q: int| i <= q < j ==> (#[trigger] ids[q]) < v.len(),
        forall|q: int|
            i <= q < j ==> v[(#[trigger] ids[q]) as int] != seq!['\n'] && (v[ids[q] as int].len()
                > 0 ==> v[ids[q] as int][0] != marker()),
    ensures
        dec_from(v, ids, i, acc) == dec_from(v, ids, j, acc + cat_to(v, ids, i, j)),
    decreases j - i,
{
    if i == j {
        assert(acc + cat_to(v, ids, i, j) =~= acc);
    } else {
        let head = v[ids[i] as int];
        assert(dec_step(acc, head) == acc + head);
        lemma_decode_verbatim_to(v, ids, i + 1, j, acc + head);
        assert(acc + head + cat_to(v, ids, i + 1, j) =~= acc + (head + cat_to(v, ids, i + 1, j)));
    }
}

/// Concatenating over the prefix of a combined list equals concatenating
/// the first list alone.
pub proof fn lemma_cat_prefix(v: Seq<Seq<char>>, ids: Seq<usize>, ids1: Seq<usize>, i: int)
    requires
        0 <= i <= ids1.len() <= ids.len(),
        forall|q: int| 0 <= q < ids1.len() ==> #[trigger] ids[q] == ids1[q],
    ensures
        cat_to(v, ids, i, ids1.len() as int) == cat_toks(v, ids1, i),
    decreases ids1.len() - i,
{
    if i < ids1.len() {
        lemma_cat_prefix(v, ids, ids1, i + 1);
    }
}

/// Round trip on a two-word text: encoding `w1 ++ " " ++ w2`, where each
/// word is nonempty, whitespace-free and marker-free, and every character
/// plus the space marker is a vocabulary entry, succeeds with the id-pair
/// strategy, and decoding reconstructs the single space exactly.
#[verifier::rlimit(100)]
pub proof fn lemma_round_trip_two_words(t: BPETokenizer, w1: Seq<char>, w2: Seq<char>)
    requires
        t.toks().len() <= usize::MAX,
        t.wf(),
        t.merges_sound(),
        t.merges@.len() > 0 || t.rank_pairs().len() == 0,
        w1.len() > 0,
        w2.len() > 0,
        forall|i: int| 0 <= i < w1.len() ==> !is_ws(#[trigger] w1[i]) && w1[i] != marker(),
        forall|i: int| 0 <= i < w2.len() ==> !is_ws(#[trigger] w2[i]) && w2[i] != marker(),
        forall|i: int| 0 <= i < w1.len() ==> has_tok(t.toks(), seq![#[trigger] w1[i]]),
        forall|i: int| 0 <= i < w2.len() ==> has_tok(t.toks(), seq![#[trigger] w2[i]]),
        has_tok(t.toks(), seq![marker()]),
    ensures
        encode_ns_spec(t, w1 + seq![' '] + w2) is Ok,
        decode_spec(t.toks(), encode_ns_spec(t, w1 + seq![' '] + w2)->Ok_0) == Ok::<
            Seq<char>,
            TokError,
        >(w1 + seq![' '] + w2),
{
    let v = t.toks();
    let text = w1 + seq![' '] + w2;
    let n1 = w1.len() as int;
    let n = text.len() as int;
    // Characterize the segmentation: one line, two words.
    assert forall|i: int| 0 <= i < n implies text[i] != '\n' by {
        if i < n1 {
            assert(text[i] == w1[i]);
        } else if i == n1 {
            assert(text[i] == ' ');
        } else {
            assert(text[i] == w2[i - n1 - 1]);
        }
    }
    lemma_find_nl(text, 0);
    assert(find_nl(text, 0) == n) by {
        if find_nl(text, 0) < n {
            assert(text[find_nl(text, 0)] == '\n');
        }
    }
    assert(lines_from(text, 0) == seq![text.subrange(0, n)]);
    assert(text.subrange(0, n) =~= text);
    lemma_find_ws(text, 0);
    assert(find_ws(text, 0) == n1) by {
        assert forall|m: int| 0 <= m < n1 implies !is_ws(#[trigger] text[m]) by {
            assert(text[m] == w1[m]);
        }
        assert(text[n1] == ' ');
        assert(is_ws(text[n1]));
        if find_ws(text, 0) < n1 {
            assert(is_ws(text[find_ws(text, 0)]));
        }
        assert(forall|m: int| 0 <= m < find_ws(text, 0) ==> !is_ws(text[m]));
    }
    assert(words_from(text, 0) =~~= seq![text.subrange(0, n1)] + words_from(text, n1));
    assert(text.subrange(0, n1) =~= w1);
    assert(is_ws(text[n1]));
    assert(words_from(text, n1) =~~= words_from(text, n1 + 1));
    lemma_find_ws(text, n1 + 1);
    assert(find_ws(text, n1 + 1) == n) by {
        assert forall|m: int| n1 + 1 <= m < n implies !is_ws(#[trigger] text[m]) by {
            assert(text[m] == w2[m - n1 - 1]);
        }
        if find_ws(text, n1 + 1) < n {
            assert(is_ws(text[find_ws(text, n1 + 1)]));
        }
    }
    assert(!is_ws(text[n1 + 1])) by {
        assert(text[n1 + 1] == w2[0]);
    }
    assert(words_from(text, n1 + 1) =~~= seq![text.subrange(n1 + 1, n)] + words_from(text, n));
    assert(text.subrange(n1 + 1, n) =~= w2);
    assert(words_from(text, n) =~~= Seq::<Seq<char>>::empty());
    assert(words_from(text, 0) =~~= seq![w1, w2]);
    let seg2 = seq![marker()] + w2;
    assert(line_tokens(seq![w1, w2], true) =~~= seq![w1, seg2]);
    let segs = segs_of(text);
    assert(segs_of_lines(lines_from(text, 0), 1) =~~= Seq::<Seq<char>>::empty());
    assert(segs =~~= seq![w1, seg2]);
    // Encode each segment: the spelled-out text is preserved.
    let ids1 = if has_tok(v, w1) {
        seq![idx_of(v, w1) as usize]
    } else {
        bpe_spec(t, w1)->Ok_0
    };
    if has_tok(v, w1) {
        lemma_idx_of(v, w1);
        assert(ids1[0] as int == idx_of(v, w1));
        assert(cat_toks(v, ids1, 1) =~= Seq::<char>::empty());
        assert(cat_toks(v, ids1, 0) =~= v[ids1[0] as int] + cat_toks(v, ids1, 1));
        assert(cat_toks(v, ids1, 0) =~= w1);
    } else {
        lemma_char_ids_ok(v, w1, 0);
        let ids0 = char_ids_from(v, w1, 0)->Ok_0;
        lemma_char_ids_cat(v, w1, 0, ids0);
        assert(w1.skip(0) =~= w1);
        lemma_rounds_cat(t, ids0);
    }
    assert(cat_toks(v, ids1, 0) == w1);
    assert(forall|j: int| 0 <= j < ids1.len() ==> (#[trigger] ids1[j]) < v.len());
    assert forall|p: int| 0 <= p < seg2.len() implies has_tok(v, seq![#[trigger] seg2[p]]) by {
        if p == 0 {
            assert(seg2[p] == marker());
        } else {
            assert(seg2[p] == w2[p - 1]);
        }
    }
    let ids2 = if has_tok(v, seg2) {
        seq![idx_of(v, seg2) as usize]
    } else {
        bpe_spec(t, seg2)->Ok_0
    };
    if has_tok(v, seg2) {
        lemma_idx_of(v, seg2);
        assert(ids2[0] as int == idx_of(v, seg2));
        assert(cat_toks(v, ids2, 1) =~= Seq::<char>::empty());
        assert(cat_toks(v, ids2, 0) =~= v[ids2[0] as int] + cat_toks(v, ids2, 1));
        assert(cat_toks(v, ids2, 0) =~= seg2);
    } else {
        lemma_char_ids_ok(v, seg2, 0);
        let ids0 = char_ids_from(v, seg2, 0)->Ok_0;
        lemma_char_ids_cat(v, seg2, 0, ids0);
        assert(seg2.skip(0) =~= seg2);
        lemma_rounds_cat(t, ids0);
    }
    assert(cat_toks(v, ids2, 0) == seg2);
    assert(forall|j: int| 0 <= j < ids2.len() ==> (#[trigger] ids2[j]) < v.len());
    assert(ids2.len() > 0) by {
        if ids2.len() == 0 {
            assert(cat_toks(v, ids2, 0) =~= Seq::<char>::empty());
        }
    }
    // The whole encoding.
    assert(enc_segs(t, segs, 2) == Ok::<Seq<usize>, TokError>(seq![]));
    assert(segs[1] == seg2);
    assert(enc_segs(t, segs, 1) == Ok::<Seq<usize>, TokError>(ids2 + seq![]));
    assert(segs[0] == w1);
    assert(enc_segs(t, segs, 0) == Ok::<Seq<usize>, TokError>(ids1 + (ids2 + seq![])));
    let ids = ids1 + ids2;
    assert(ids1 + (ids2 + seq![]) =~= ids);
    assert(encode_ns_spec(t, text) == Ok::<Seq<usize>, TokError>(ids));
    // Decode: the first word's tokens are clean and appended verbatim.
    assert forall|p: int| 0 <= p < cat_toks(v, ids1, 0).len() implies cat_toks(v, ids1, 0)[p]
        != marker() && cat_toks(v, ids1, 0)[p] != '\n' by {
        assert(cat_toks(v, ids1, 0)[p] == w1[p]);
        assert(!is_ws(w1[p]));
    }
    lemma_cat_clean(v, ids1, 0);
    assert(forall|q: int| 0 <= q < ids1.len() ==> #[trigger] ids[q] == ids1[q]);
    let mid = ids1.len() as int;
    lemma_cat_prefix(v, ids, ids1, 0);
    lemma_decode_verbatim_to(v, ids, 0, mid, seq![]);
    assert(Seq::<char>::empty() + cat_to(v, ids, 0, mid) =~= w1);
    // The marked segment: its first token begins with the marker, the rest
    // are clean.
    assert(forall|q: int| 0 <= q < ids2.len() ==> #[trigger] ids[mid + q] == ids2[q]);
    let t0 = v[ids2[0] as int];
    assert(t0.len() > 0);
    assert(t0[0] == marker()) by {
        assert(cat_toks(v, ids2, 0) =~= t0 + cat_toks(v, ids2, 1));
        assert(seg2[0] == t0[0]);
    }
    assert(t0 != seq!['\n']);
    assert forall|p: int| 0 <= p < cat_toks(v, ids2, 1).len() implies cat_toks(v, ids2, 1)[p]
        != marker() && cat_toks(v, ids2, 1)[p] != '\n' by {
        assert(cat_toks(v, ids2, 0) =~= t0 + cat_toks(v, ids2, 1));
        assert(cat_toks(v, ids2, 0)[t0.len() + p] == cat_toks(v, ids2, 1)[p]);
        assert(seg2[t0.len() + p] == cat_toks(v, ids2, 1)[p]);
        assert(seg2[t0.len() + p] == w2[t0.len() + p - 1]);
        assert(!is_ws(w2[t0.len() + p - 1]));
    }
    lemma_cat_clean(v, ids2, 1);
    // Step over the marked token, then the rest verbatim.
    assert(ids[mid] == ids2[0]);
    assert(dec_from(v, ids, mid, w1) == dec_from(v, ids, mid + 1, dec_step(w1, t0)));
    assert(dec_step(w1, t0) == w1.push(' ') + t0.skip(1));
    assert forall|q: int| mid + 1 <= q < ids.len() implies (#[trigger] ids[q]) < v.len() && v[
        ids[q] as int] != seq!['\n'] && (v[ids[q] as int].len() > 0 ==> v[ids[q] as int][0]
        != marker()) by {
        assert(ids[q] == ids2[q - mid]);
    }
    lemma_decode_verbatim(v, ids, mid + 1, dec_step(w1, t0));
    lemma_cat_toks_shift(v, ids, mid + 1);
    assert(ids.skip(mid + 1) =~= ids2.skip(1));
    lemma_cat_toks_shift(v, ids2, 1);
    assert(cat_toks(v, ids, mid + 1) == cat_toks(v, ids2, 1));
    assert(t0 + cat_toks(v, ids2, 1) =~= seg2);
    assert(w1.push(' ') + t0.skip(1) + cat_toks(v, ids2, 1) =~= w1 + seq![' '] + (t0.skip(1)
        + cat_toks(v, ids2, 1)));
    assert(t0.skip(1) + cat_toks(v, ids2, 1) =~= seg2.skip(1));
    assert(seg2.skip(1) =~= w2);
    assert(dec_from(v, ids, 0, seq![]) == Ok::<Seq<char>, TokError>(text));
}

/// Round trip on whitespace-free text: encoding a nonempty text that holds
/// no whitespace and no space-marker character, every character of which is
/// a vocabulary entry, succeeds with the id-pair strategy, and decoding the
/// result recovers the text exactly.
pub proof fn lemma_round_trip_word(t: BPETokenizer, text: Seq<char>)
    requires
        t.toks().len() <= usize::MAX,
        t.wf(),
        t.merges_sound(),
        t.merges@.len() > 0 || t.rank_pairs().len() == 0,
        text.len() > 0,
        forall|i: int| 0 <= i < text.len() ==> !is_ws(#[trigger] text[i]),
        forall|i: int| 0 <= i < text.len() ==> #[trigger] text[i] != marker(),
        forall|i: int| 0 <= i < text.len() ==> has_tok(t.toks(), seq![#[trigger] text[i]]),
    ensures
        encode_ns_spec(t, text) is Ok,
        decode_spec(t.toks(), encode_ns_spec(t, text)->Ok_0) == Ok::<Seq<char>, TokError>(text),
{
    let v = t.toks();
    lemma_segs_single_word(text);
    let segs = segs_of(text);
    assert(segs == seq![text]);
    assert(segs[0] == text);
    // The encoding of the single segment.
    let head: Result<Seq<usize>, TokError> = if has_tok(v, text) {
        Ok(seq![idx_of(v, text) as usize])
    } else {
        bpe_spec(t, text)
    };
    assert(enc_segs(t, segs, 1) == Ok::<Seq<usize>, TokError>(seq![]));
    let ids = if has_tok(v, text) {
        seq![idx_of(v, text) as usize]
    } else {
        bpe_spec(t, text)->Ok_0
    };
    if has_tok(v, text) {
        lemma_idx_of(v, text);
        assert(ids[0] as int == idx_of(v, text));
        assert(v[ids[0] as int] == text);
        assert(cat_toks(v, ids, 1) =~= Seq::<char>::empty());
        assert(cat_toks(v, ids, 0) =~= v[ids[0] as int] + cat_toks(v, ids, 1));
        assert(cat_toks(v, ids, 0) =~= text);
        assert(forall|j: int| 0 <= j < ids.len() ==> (#[trigger] ids[j]) < v.len());
    } else {
        lemma_char_ids_ok(v, text, 0);
        let ids0 = char_ids_from(v, text, 0)->Ok_0;
        lemma_char_ids_cat(v, text, 0, ids0);
        assert(text.skip(0) =~= text);
        assert(bpe_spec(t, text) == Ok::<Seq<usize>, TokError>(pair_rounds(t.merges@, ids0)));
        lemma_rounds_cat(t, ids0);
        assert(cat_toks(v, ids, 0) == text);
    }
    assert(head == Ok::<Seq<usize>, TokError>(ids));
    assert(enc_segs(t, segs, 0) == Ok::<Seq<usize>, TokError>(ids + seq![]));
    assert(ids + seq![] =~= ids);
    assert(encode_ns_spec(t, text) == Ok::<Seq<usize>, TokError>(ids));
    // Decoding appends every token verbatim.
    assert forall|p: int| 0 <= p < cat_toks(v, ids, 0).len() implies cat_toks(v, ids, 0)[p]
        != marker() && cat_toks(v, ids, 0)[p] != '\n' by {
        assert(cat_toks(v, ids, 0)[p] == text[p]);
        assert(!is_ws(text[p]));
    }
    lemma_cat_clean(v, ids, 0);
    lemma_decode_verbatim(v, ids, 0, seq![]);
    assert(Seq::<char>::empty() + cat_toks(v, ids, 0) =~= text);
}

} // verus!
