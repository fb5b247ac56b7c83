//! Persistence: a native textual format for the vocabulary and the merge
//! table, and an import path for externally trained vocabularies and rank
//! files.
//!
//! Native vocabulary file: one line per entry, `<id>\t<token>\n`, IDs dense
//! and ascending from zero.  Native merges file: one line per rule,
//! `<left>\t<right>\t<merged-id>\n`, in learning order.  Token strings are
//! escaped so that backslash, newline and tab survive exactly.

use vstd::prelude::*;
use crate::text::lines_from;
use crate::text::words_from;
use crate::vocab::idx_of;
use crate::vocab::has_tok;
use crate::tokenizer::MergeRule;
use crate::TokError;

verus! {

/// The escaping of one character: backslash, newline and tab become
/// two-character escapes, everything else stands for itself.
pub open spec fn esc_char(c: char) -> Seq<char> {
    if c == '\\' {
        seq!['\\', '\\']
    } else if c == '\n' {
        seq!['\\', 'n']
    } else if c == '\t' {
        seq!['\\', 't']
    } else {
        seq![c]
    }
}

/// The escaping of a token string from position `i` on.
pub open spec fn esc(s: Seq<char>, i: int) -> Seq<char>
    decreases s.len() - i,
{
    if !(0 <= i < s.len()) {
        seq![]
    } else {
        esc_char(s[i]) + esc(s, i + 1)
    }
}

/// The inverse of escaping; `None` on a dangling or unknown escape.
pub open spec fn unesc(s: Seq<char>, i: int) -> Option<Seq<char>>
    decreases s.len() - i,
{
    if !(0 <= i <= s.len()) {
        Option::None
    } else if i == s.len() {
        Option::Some(seq![])
    } else if s[i] == '\\' {
        if i + 1 >= s.len() {
            Option::None
        } else if s[i + 1] == '\\' || s[i + 1] == 'n' || s[i + 1] == 't' {
            let c = if s[i + 1] == '\\' {
                '\\'
            } else if s[i + 1] == 'n' {
                '\n'
            } else {
                '\t'
            };
            match unesc(s, i + 2) {
                Option::Some(r) => Option::Some(seq![c] + r),
                Option::None => Option::None,
            }
        } else {
            Option::None
        }
    } else {
        match unesc(s, i + 1) {
            Option::Some(r) => Option::Some(seq![s[i]] + r),
            Option::None => Option::None,
        }
    }
}

/// The decimal digit character of `d` (0 to 9).
pub open spec fn digit_char(d: int) -> char {
    if d == 0 {
        '0'
    } else if d == 1 {
        '1'
    } else if d == 2 {
        '2'
    } else if d == 3 {
        '3'
    } else if d == 4 {
        '4'
    } else if d == 5 {
        '5'
    } else if d == 6 {
        '6'
    } else if d == 7 {
        '7'
    } else if d == 8 {
        '8'
    } else {
        '9'
    }
}

/// The decimal spelling of a nonnegative number, most significant digit
/// first.
pub open spec fn dec_digits(n: int) -> Seq<char>
    decreases n,
{
    if n < 10 {
        seq![digit_char(n)]
    } else {
        dec_digits(n / 10).push(digit_char(n % 10))
    }
}

/// The numeric value of a decimal digit character, or -1.
pub open spec fn digit_val(c: char) -> int {
    if c == '0' {
        0
    } else if c == '1' {
        1
    } else if c == '2' {
        2
    } else if c == '3' {
        3
    } else if c == '4' {
        4
    } else if c == '5' {
        5
    } else if c == '6' {
        6
    } else if c == '7' {
        7
    } else if c == '8' {
        8
    } else if c == '9' {
        9
    } else {
        -1
    }
}

/// Parses `s[i..]` as decimal digits onto the accumulator; `None` on a
/// non-digit.
pub open spec fn dec_parse(s: Seq<char>, i: int, acc: int) -> Option<int>
    decreases s.len() - i,
{
    if !(0 <= i <= s.len()) {
        Option::None
    } else if i == s.len() {
        Option::Some(acc)
    } else if digit_val(s[i]) < 0 {
        Option::None
    } else {
        dec_parse(s, i + 1, acc * 10 + digit_val(s[i]))
    }
}

/// The parse of a whole field as a `usize`: nonempty, digits only, within
/// range.
pub open spec fn parse_usize(s: Seq<char>) -> Option<int> {
    if s.len() == 0 {
        Option::None
    } else {
        match dec_parse(s, 0, 0) {
            Option::Some(v) => if v <= usize::MAX {
                Option::Some(v)
            } else {
                Option::None
            },
            Option::None => Option::None,
        }
    }
}

/// A parse that succeeds is at least its starting accumulator.
pub proof fn lemma_dec_parse_mono(s: Seq<char>, i: int, acc: int)
    requires
        acc >= 0,
        dec_parse(s, i, acc) is Some,
    ensures
        acc <= dec_parse(s, i, acc)->Some_0,
    decreases s.len() - i,
{
    if 0 <= i < s.len() && digit_val(s[i]) >= 0 {
        lemma_dec_parse_mono(s, i + 1, acc * 10 + digit_val(s[i]));
    }
}

/// Exec twin of [`digit_char`].
fn digit_of(d: usize) -> (c: char)
    requires
        d < 10,
    ensures
        c == digit_char(d as int),
{
    if d == 0 {
        '0'
    } else if d == 1 {
        '1'
    } else if d == 2 {
        '2'
    } else if d == 3 {
        '3'
    } else if d == 4 {
        '4'
    } else if d == 5 {
        '5'
    } else if d == 6 {
        '6'
    } else if d == 7 {
        '7'
    } else if d == 8 {
        '8'
    } else {
        '9'
    }
}

/// Exec twin of [`digit_val`].
fn val_of(c: char) -> (d: i8)
    ensures
        d as int == digit_val(c),
{
    if c == '0' {
        0
    } else if c == '1' {
        1
    } else if c == '2' {
        2
    } else if c == '3' {
        3
    } else if c == '4' {
        4
    } else if c == '5' {
        5
    } else if c == '6' {
        6
    } else if c == '7' {
        7
    } else if c == '8' {
        8
    } else if c == '9' {
        9
    } else {
        -1
    }
}

/// Appends the decimal spelling of `n`.
fn push_dec(out: &mut Vec<char>, n: usize)
    ensures
        final(out)@ == old(out)@ + dec_digits(n as int),
{
    let ghost base = out@;
    let mut tmp: Vec<char> = Vec::new();
    let mut cur: usize = n;
    proof {
        assert(dec_digits(n as int) =~= dec_digits(cur as int) + tmp@.reverse());
    }
    while cur >= 10
        invariant
            dec_digits(n as int) =~= dec_digits(cur as int) + tmp@.reverse(),
        decreases cur,
    {
        let ghost tmp0 = tmp@;
        let d = cur % 10;
        tmp.push(digit_of(d));
        proof {
            assert(dec_digits(cur as int) == dec_digits(cur as int / 10).push(
                digit_char(cur as int % 10),
            ));
            assert(tmp@.reverse() =~= seq![digit_char(cur as int % 10)] + tmp0.reverse());
            assert(dec_digits((cur / 10) as int) + tmp@.reverse() =~= dec_digits(cur as int)
                + tmp0.reverse());
        }
        cur = cur / 10;
    }
    let ghost target = base + dec_digits(n as int);
    out.push(digit_of(cur));
    proof {
        assert(dec_digits(cur as int) =~= seq![digit_char(cur as int)]);
        assert(out@ + tmp@.reverse() =~= target);
    }
    while tmp.len() > 0
        invariant
            out@ + tmp@.reverse() =~= target,
        decreases tmp@.len(),
    {
        let ghost tmp0 = tmp@;
        let ghost out0 = out@;
        match tmp.pop() {
            Some(c) => {
                out.push(c);
                proof {
                    assert(tmp0.reverse() =~= seq![tmp0.last()] + tmp@.reverse());
                    assert(out@ + tmp@.reverse() =~= out0 + tmp0.reverse());
                }
            },
            None => {
                proof {
                    assert(false);
                }
            },
        }
    }
    proof {
        assert(tmp@.reverse() =~= Seq::<char>::empty());
        assert(out@ =~= target);
    }
}

/// Appends the escaped form of a token string.
fn push_esc(out: &mut Vec<char>, tok: &Vec<char>)
    ensures
        final(out)@ == old(out)@ + esc(tok@, 0),
{
    let ghost base = out@;
    let mut i: usize = 0;
    proof {
        assert(base + esc(tok@, 0) =~= base + esc(tok@, 0));
    }
    while i < tok.len()
        invariant
            i <= tok@.len(),
            base + esc(tok@, 0) == out@ + esc(tok@, i as int),
        decreases tok@.len() - i,
    {
        let c = tok[i];
        let ghost before = out@;
        if c == '\\' {
            out.push('\\');
            out.push('\\');
        } else if c == '\n' {
            out.push('\\');
            out.push('n');
        } else if c == '\t' {
            out.push('\\');
            out.push('t');
        } else {
            out.push(c);
        }
        proof {
            assert(out@ =~= before + esc_char(tok@[i as int]));
            assert(esc(tok@, i as int) == esc_char(tok@[i as int]) + esc(tok@, i + 1));
            assert(before + esc(tok@, i as int) =~= out@ + esc(tok@, i + 1));
        }
        i = i + 1;
    }
    proof {
        assert(esc(tok@, tok@.len() as int) =~= Seq::<char>::empty());
        assert(out@ + Seq::<char>::empty() =~= out@);
    }
}

/// The inverse of escaping, as an exec function.
fn unesc_vec(s: &Vec<char>) -> (r: Option<Vec<char>>)
    ensures
        match r {
            Some(t) => unesc(s@, 0) == Option::Some(t@),
            None => unesc(s@, 0) == Option::<Seq<char>>::None,
        },
{
    let mut out: Vec<char> = Vec::new();
    let mut i: usize = 0;
    proof {
        assert(cat_opt(out@, unesc(s@, 0)) == unesc(s@, 0)) by {
            match unesc(s@, 0) {
                Option::Some(r) => {
                    assert(out@ + r =~= r);
                },
                Option::None => {},
            }
        }
    }
    while i < s.len()
        invariant
            i <= s@.len(),
            unesc(s@, 0) == cat_opt(out@, unesc(s@, i as int)),
        decreases s@.len() - i,
    {
        let ghost pre = out@;
        let c = s[i];
        if c == '\\' {
            if i + 1 >= s.len() {
                return None;
            }
            let d = s[i + 1];
            let dec: char = if d == '\\' {
                '\\'
            } else if d == 'n' {
                '\n'
            } else if d == 't' {
                '\t'
            } else {
                return None;
            };
            out.push(dec);
            proof {
                assert(unesc(s@, i as int) == (match unesc(s@, i + 2) {
                    Option::Some(r) => Option::Some(seq![dec] + r),
                    Option::None => Option::<Seq<char>>::None,
                }));
                lemma_cat_opt(pre, seq![dec], unesc(s@, i + 2));
                assert(pre + seq![dec] =~= out@);
            }
            i = i + 2;
        } else {
            out.push(c);
            proof {
                assert(unesc(s@, i as int) == (match unesc(s@, i + 1) {
                    Option::Some(r) => Option::Some(seq![c] + r),
                    Option::None => Option::<Seq<char>>::None,
                }));
                lemma_cat_opt(pre, seq![c], unesc(s@, i + 1));
                assert(pre + seq![c] =~= out@);
            }
            i = i + 1;
        }
    }
    proof {
        assert(unesc(s@, s@.len() as int) == Option::Some(Seq::<char>::empty()));
        assert(out@ + Seq::<char>::empty() =~= out@);
    }
    Some(out)
}

/// `Some` strings prefixed with `pre`; `None` passed through.
pub open spec fn cat_opt(pre: Seq<char>, r: Option<Seq<char>>) -> Option<Seq<char>> {
    match r {
        Option::Some(v) => Option::Some(pre + v),
        Option::None => Option::None,
    }
}

pub proof fn lemma_cat_opt(a: Seq<char>, b: Seq<char>, r: Option<Seq<char>>)
    ensures
        cat_opt(a, (match r {
            Option::Some(v) => Option::Some(b + v),
            Option::None => Option::<Seq<char>>::None,
        })) == cat_opt(a + b, r),
{
    match r {
        Option::Some(v) => {
            assert(a + (b + v) =~= (a + b) + v);
        },
        Option::None => {},
    }
}

/// Parses a whole field as a decimal number.
fn parse_num(s: &Vec<char>) -> (r: Option<usize>)
    ensures
        match r {
            Some(v) => parse_usize(s@) == Option::Some(v as int),
            None => parse_usize(s@) == Option::<int>::None,
        },
{
    if s.len() == 0 {
        return None;
    }
    let mut acc: usize = 0;
    let mut i: usize = 0;
    while i < s.len()
        invariant
            i <= s@.len(),
            s@.len() > 0,
            dec_parse(s@, 0, 0) == dec_parse(s@, i as int, acc as int),
        decreases s@.len() - i,
    {
        let d = val_of(s[i]);
        if d < 0 {
            return None;
        }
        proof {
            if dec_parse(s@, i as int, acc as int) is Some {
                lemma_dec_parse_mono(
                    s@,
                    i + 1,
                    (acc as int) * 10 + digit_val(s@[i as int]),
                );
            }
        }
        let next = match acc.checked_mul(10) {
            Some(m) => match m.checked_add(d as usize) {
                Some(v) => v,
                None => {
                    proof {
                        if dec_parse(s@, 0, 0) is Some {
                            assert((acc as int) * 10 + digit_val(s@[i as int]) > usize::MAX);
                            assert(dec_parse(s@, 0, 0)->Some_0 > usize::MAX);
                        }
                    }
                    return None;
                },
            },
            None => {
                proof {
                    if dec_parse(s@, 0, 0) is Some {
                        assert((acc as int) * 10 + digit_val(s@[i as int]) > usize::MAX);
                        assert(dec_parse(s@, 0, 0)->Some_0 > usize::MAX);
                    }
                }
                return None;
            },
        };
        acc = next;
        i = i + 1;
    }
    Some(acc)
}

/// First tab at or after `i`, or the length of `s`.
pub open spec fn find_tab(s: Seq<char>, i: int) -> int
    decreases s.len() - i,
{
    if !(0 <= i < s.len()) {
        s.len() as int
    } else if s[i] == '\t' {
        i
    } else {
        find_tab(s, i + 1)
    }
}

pub proof fn lemma_find_tab(s: Seq<char>, i: int)
    requires
        0 <= i <= s.len(),
    ensures
        i <= find_tab(s, i) <= s.len(),
    decreases s.len() - i,
{
    if i < s.len() && s[i] != '\t' {
        lemma_find_tab(s, i + 1);
    }
}

/// Exec twin of [`find_tab`].
fn find_tab_at(v: &Vec<char>, from: usize) -> (r: usize)
    requires
        from <= v@.len(),
    ensures
        r == find_tab(v@, from as int),
        from <= r <= v@.len(),
{
    proof {
        lemma_find_tab(v@, from as int);
    }
    let mut i: usize = from;
    while i < v.len()
        invariant
            from <= i <= v@.len(),
            find_tab(v@, from as int) == find_tab(v@, i as int),
        decreases v@.len() - i,
    {
        if v[i] == '\t' {
            return i;
        }
        i = i + 1;
    }
    i
}

/// The native vocabulary file for entries `i..`: one `<id>\t<token>\n` line
/// per entry, IDs ascending from zero.
pub open spec fn vocab_text(v: Seq<Seq<char>>, i: int) -> Seq<char>
    decreases v.len() - i,
{
    if !(0 <= i < v.len()) {
        seq![]
    } else {
        dec_digits(i) + seq!['\t'] + esc(v[i], 0) + seq!['\n'] + vocab_text(v, i + 1)
    }
}

/// The native merges file for rules `i..`: one
/// `<left>\t<right>\t<merged-id>\n` line per rule, in learning order.
pub open spec fn merges_text(v: Seq<Seq<char>>, ms: Seq<MergeRule>, i: int) -> Seq<char>
    decreases ms.len() - i,
{
    if !(0 <= i < ms.len()) {
        seq![]
    } else {
        esc(v[ms[i].left as int], 0) + seq!['\t'] + esc(v[ms[i].right as int], 0) + seq!['\t']
            + dec_digits(ms[i].merged as int) + seq!['\n'] + merges_text(v, ms, i + 1)
    }
}

/// The parse of the native vocabulary file's lines from `i` on, entries
/// accumulated in `acc`: each line must hold the next dense ID, a tab, and
/// an escaped, fresh, nonempty token; the final line must be empty.
pub open spec fn parse_vocab_lines(lines: Seq<Seq<char>>, i: int, acc: Seq<Seq<char>>) -> Result<
    Seq<Seq<char>>,
    TokError,
>
    decreases lines.len() - i,
{
    if !(0 <= i < lines.len()) {
        Err(TokError::InvalidData)
    } else if i == lines.len() - 1 {
        if lines[i].len() == 0 {
            Ok(acc)
        } else {
            Err(TokError::InvalidData)
        }
    } else {
        let line = lines[i];
        let t = find_tab(line, 0);
        if t >= line.len() {
            Err(TokError::InvalidData)
        } else {
            match parse_usize(line.subrange(0, t)) {
                Option::None => Err(TokError::InvalidData),
                Option::Some(id) => if id != acc.len() {
                    Err(TokError::InvalidData)
                } else {
                    match unesc(line.subrange(t + 1, line.len() as int), 0) {
                        Option::None => Err(TokError::InvalidData),
                        Option::Some(tok) => if tok.len() == 0 || has_tok(acc, tok) {
                            Err(TokError::InvalidData)
                        } else {
                            parse_vocab_lines(lines, i + 1, acc.push(tok))
                        },
                    }
                },
            }
        }
    }
}

/// The parse of a whole native vocabulary file.
pub open spec fn parse_vocab(text: Seq<char>) -> Result<Seq<Seq<char>>, TokError> {
    parse_vocab_lines(lines_from(text, 0), 0, seq![])
}

/// The parse of the native merges file's lines from `i` on against
/// vocabulary `v`: both constituent strings are re-resolved to their current
/// IDs, and the recorded merged ID must exist; the final line must be empty.
pub open spec fn parse_merges_lines(
    v: Seq<Seq<char>>,
    lines: Seq<Seq<char>>,
    i: int,
    acc: Seq<MergeRule>,
) -> Result<Seq<MergeRule>, TokError>
    decreases lines.len() - i,
{
    if !(0 <= i < lines.len()) {
        Err(TokError::InvalidData)
    } else if i == lines.len() - 1 {
        if lines[i].len() == 0 {
            Ok(acc)
        } else {
            Err(TokError::InvalidData)
        }
    } else {
        let line = lines[i];
        let t1 = find_tab(line, 0);
        let t2 = find_tab(line, t1 + 1);
        if t1 >= line.len() || t2 >= line.len() {
            Err(TokError::InvalidData)
        } else {
            match (
                unesc(line.subrange(0, t1), 0),
                unesc(line.subrange(t1 + 1, t2), 0),
                parse_usize(line.subrange(t2 + 1, line.len() as int)),
            ) {
                (Option::Some(lt), Option::Some(rt), Option::Some(mid)) => {
                    if !has_tok(v, lt) || !has_tok(v, rt) || mid >= v.len() {
                        Err(TokError::InvalidData)
                    } else {
                        parse_merges_lines(
                            v,
                            lines,
                            i + 1,
                            acc.push(
                                MergeRule {
                                    left: idx_of(v, lt) as usize,
                                    right: idx_of(v, rt) as usize,
                                    merged: mid as usize,
                                },
                            ),
                        )
                    }
                },
                _ => Err(TokError::InvalidData),
            }
        }
    }
}

/// The parse of a whole native merges file.
pub open spec fn parse_merges(v: Seq<Seq<char>>, text: Seq<char>) -> Result<
    Seq<MergeRule>,
    TokError,
> {
    parse_merges_lines(v, lines_from(text, 0), 0, seq![])
}

impl crate::tokenizer::BPETokenizer {
    /// Serializes the vocabulary and the merge table into the two native
    /// file texts, in that order.
    pub fn save_vocab_and_merges(&self) -> (r: (String, String))
        requires
            self.wf(),
        ensures
            r.0@ == vocab_text(self.toks(), 0),
            r.1@ == merges_text(self.toks(), self.merges@, 0),
    {
        let mut vout: Vec<char> = Vec::new();
        let mut i: usize = 0;
        proof {
            assert(vout@ + vocab_text(self.toks(), 0) =~= vocab_text(self.toks(), 0));
        }
        while i < self.vocab.size()
            invariant
                i <= self.toks().len(),
                self.wf(),
                vocab_text(self.toks(), 0) == vout@ + vocab_text(self.toks(), i as int),
            decreases self.toks().len() - i,
        {
            let ghost pre = vout@;
            let tok = match self.vocab.token_of(i) {
                Ok(t) => t,
                Err(_) => {
                    proof {
                        assert(false);
                    }
                    return (String::new(), String::new());
                },
            };
            push_dec(&mut vout, i);
            vout.push('\t');
            push_esc(&mut vout, &tok);
            vout.push('\n');
            proof {
                assert(vout@ =~= pre + (dec_digits(i as int) + seq!['\t'] + esc(
                    self.toks()[i as int],
                    0,
                ) + seq!['\n']));
                assert(pre + vocab_text(self.toks(), i as int) =~= vout@ + vocab_text(
                    self.toks(),
                    i + 1,
                ));
            }
            i = i + 1;
        }
        proof {
            assert(vocab_text(self.toks(), self.toks().len() as int) =~= Seq::<char>::empty());
            assert(vout@ + Seq::<char>::empty() =~= vout@);
        }
        let mut mout: Vec<char> = Vec::new();
        let mut j: usize = 0;
        proof {
            assert(mout@ + merges_text(self.toks(), self.merges@, 0) =~= merges_text(
                self.toks(),
                self.merges@,
                0,
            ));
        }
        while j < self.merges.len()
            invariant
                j <= self.merges@.len(),
                self.wf(),
                merges_text(self.toks(), self.merges@, 0) == mout@ + merges_text(
                    self.toks(),
                    self.merges@,
                    j as int,
                ),
            decreases self.merges@.len() - j,
        {
            let ghost pre = mout@;
            let rule = self.merges[j];
            let lt = match self.vocab.token_of(rule.left) {
                Ok(t) => t,
                Err(_) => {
                    proof {
                        assert(false);
                    }
                    return (String::new(), String::new());
                },
            };
            let rt = match self.vocab.token_of(rule.right) {
                Ok(t) => t,
                Err(_) => {
                    proof {
                        assert(false);
                    }
                    return (String::new(), String::new());
                },
            };
            push_esc(&mut mout, &lt);
            mout.push('\t');
            push_esc(&mut mout, &rt);
            mout.push('\t');
            push_dec(&mut mout, rule.merged);
            mout.push('\n');
            proof {
                assert(mout@ =~= pre + (esc(self.toks()[rule.left as int], 0) + seq!['\t'] + esc(
                    self.toks()[rule.right as int],
                    0,
                ) + seq!['\t'] + dec_digits(rule.merged as int) + seq!['\n']));
                assert(pre + merges_text(self.toks(), self.merges@, j as int) =~= mout@
                    + merges_text(self.toks(), self.merges@, j + 1));
            }
            j = j + 1;
        }
        proof {
            assert(merges_text(self.toks(), self.merges@, self.merges@.len() as int)
                =~= Seq::<char>::empty());
            assert(mout@ + Seq::<char>::empty() =~= mout@);
        }
        (crate::text::chars_to_string(&vout), crate::text::chars_to_string(&mout))
    }

    /// Loads a natively saved vocabulary and merge table.  The merge table
    /// is reconstructed by re-resolving the constituent strings through the
    /// loaded vocabulary, and the rank list is rebuilt from the same records
    /// in their saved order; `InvalidData` on any malformed record or
    /// unresolvable reference, in which case the tokenizer is unchanged.
    pub fn load_vocab_and_merges(&mut self, vocab_data: &str, bpe_merges_data: &str) -> (r: Result<
        (),
        TokError,
    >)
        ensures
            match r {
                Ok(()) => {
                    &&& parse_vocab(vocab_data@) == Ok::<Seq<Seq<char>>, TokError>(
                        final(self).toks(),
                    )
                    &&& parse_merges(final(self).toks(), bpe_merges_data@) == Ok::<
                        Seq<MergeRule>,
                        TokError,
                    >(final(self).merges@)
                    &&& final(self).wf()
                    &&& final(self).ranks_aligned()
                    &&& final(self).special_toks() == old(self).special_toks()
                },
                Err(e) => {
                    &&& *final(self) == *old(self)
                    &&& match parse_vocab(vocab_data@) {
                        Err(e2) => e == e2,
                        Ok(v) => parse_merges(v, bpe_merges_data@) == Err::<Seq<MergeRule>, TokError>(
                            e,
                        ),
                    }
                },
            },
    {
        let vt = crate::text::to_chars(vocab_data);
        let lines = crate::text::split_lines(&vt);
        let ghost ldv = lines.deep_view();
        let mut voc = crate::vocab::Vocabulary::new();
        let mut i: usize = 0;
        while i + 1 < lines.len()
            invariant
                ldv == lines.deep_view(),
                ldv.len() == lines@.len(),
                ldv.len() >= 1,
                i <= ldv.len() - 1,
                voc.wf(),
                parse_vocab_lines(ldv, 0, Seq::<Seq<char>>::empty()) == parse_vocab_lines(
                    ldv,
                    i as int,
                    voc.toks(),
                ),
            decreases ldv.len() - i,
        {
            proof {
                assert(ldv[i as int] == lines@[i as int]@);
            }
            let t = find_tab_at(&lines[i], 0);
            if t == lines[i].len() {
                return Err(TokError::InvalidData);
            }
            let idpart = crate::text::subvec(&lines[i], 0, t);
            let tokpart = crate::text::subvec(&lines[i], t + 1, lines[i].len());
            let id = match parse_num(&idpart) {
                Some(v) => v,
                None => {
                    return Err(TokError::InvalidData);
                },
            };
            if id != voc.size() {
                return Err(TokError::InvalidData);
            }
            let tok = match unesc_vec(&tokpart) {
                Some(t2) => t2,
                None => {
                    return Err(TokError::InvalidData);
                },
            };
            let sz = voc.size();
            match voc.insert(sz, tok) {
                Ok(()) => {},
                Err(_) => {
                    return Err(TokError::InvalidData);
                },
            }
            i = i + 1;
        }
        proof {
            assert(ldv[i as int] == lines@[i as int]@);
        }
        if lines[i].len() != 0 {
            return Err(TokError::InvalidData);
        }
        proof {
            assert(parse_vocab(vocab_data@) == Ok::<Seq<Seq<char>>, TokError>(voc.toks()));
        }
        // The merges file, resolved against the loaded vocabulary.
        let mt = crate::text::to_chars(bpe_merges_data);
        let mlines = crate::text::split_lines(&mt);
        let ghost mdv = mlines.deep_view();
        let mut merges: Vec<MergeRule> = Vec::new();
        let mut ranks: Vec<(Vec<char>, Vec<char>)> = Vec::new();
        let mut j: usize = 0;
        while j + 1 < mlines.len()
            invariant
                mdv == mlines.deep_view(),
                mdv.len() == mlines@.len(),
                mdv.len() >= 1,
                j <= mdv.len() - 1,
                voc.wf(),
                parse_merges_lines(voc.toks(), mdv, 0, Seq::<MergeRule>::empty())
                    == parse_merges_lines(voc.toks(), mdv, j as int, merges@),
                forall|q: int|
                    0 <= q < merges@.len() ==> (#[trigger] merges@[q]).left < voc.toks().len()
                        && merges@[q].right < voc.toks().len() && merges@[q].merged
                        < voc.toks().len(),
                ranks@.len() == merges@.len(),
                forall|q: int|
                    0 <= q < merges@.len() ==> (#[trigger] ranks@[q].0@, ranks@[q].1@) == (
                        voc.toks()[merges@[q].left as int],
                        voc.toks()[merges@[q].right as int],
                    ),
            decreases mdv.len() - j,
        {
            proof {
                assert(mdv[j as int] == mlines@[j as int]@);
            }
            let t1 = find_tab_at(&mlines[j], 0);
            if t1 == mlines[j].len() {
                return Err(TokError::InvalidData);
            }
            let t2 = find_tab_at(&mlines[j], t1 + 1);
            if t2 == mlines[j].len() {
                return Err(TokError::InvalidData);
            }
            let lpart = crate::text::subvec(&mlines[j], 0, t1);
            let rpart = crate::text::subvec(&mlines[j], t1 + 1, t2);
            let npart = crate::text::subvec(&mlines[j], t2 + 1, mlines[j].len());
            let lt = match unesc_vec(&lpart) {
                Some(t3) => t3,
                None => {
                    return Err(TokError::InvalidData);
                },
            };
            let rt = match unesc_vec(&rpart) {
                Some(t3) => t3,
                None => {
                    return Err(TokError::InvalidData);
                },
            };
            let mid = match parse_num(&npart) {
                Some(v) => v,
                None => {
                    return Err(TokError::InvalidData);
                },
            };
            let lid = match voc.id_of(&lt) {
                Ok(v) => v,
                Err(_) => {
                    return Err(TokError::InvalidData);
                },
            };
            let rid = match voc.id_of(&rt) {
                Ok(v) => v,
                Err(_) => {
                    return Err(TokError::InvalidData);
                },
            };
            if mid >= voc.size() {
                return Err(TokError::InvalidData);
            }
            proof {
                crate::vocab::lemma_idx_of(voc.toks(), lt@);
                crate::vocab::lemma_idx_of(voc.toks(), rt@);
                assert(has_tok(voc.toks(), lt@)) by {
                    assert(voc.toks()[lid as int] == lt@);
                }
                assert(has_tok(voc.toks(), rt@)) by {
                    assert(voc.toks()[rid as int] == rt@);
                }
            }
            merges.push(MergeRule { left: lid, right: rid, merged: mid });
            ranks.push((lt, rt));
            j = j + 1;
        }
        proof {
            assert(mdv[j as int] == mlines@[j as int]@);
        }
        if mlines[j].len() != 0 {
            return Err(TokError::InvalidData);
        }
        proof {
            assert(parse_merges(voc.toks(), bpe_merges_data@) == Ok::<Seq<MergeRule>, TokError>(
                merges@,
            ));
        }
        self.vocab = voc;
        self.merges = merges;
        self.ranks = ranks;
        proof {
            assert(self.ranks_aligned()) by {
                assert forall|q: int| 0 <= q < self.merges@.len() implies self.rank_pairs()[q] == (
                    self.toks()[(#[trigger] self.merges@[q]).left as int],
                    self.toks()[self.merges@[q].right as int],
                ) by {
                    assert(self.rank_pairs()[q] == (self.ranks@[q].0@, self.ranks@[q].1@));
                }
            }
        }
        Ok(())
    }
}

/// What parsing an external JSON vocabulary file returns: the entries of a
/// string-to-integer object, sorted by key, or nothing when the text is not
/// such an object.  The result depends on the text alone.
pub uninterp spec fn json_vocab_of(s: Seq<char>) -> Option<Seq<(Seq<char>, u64)>>;

/// Relies on `serde_json::from_str::<BTreeMap<String, u64>>`: parsing is a
/// function of the text alone, and a `BTreeMap` iterates its entries in
/// ascending key order, so the entry list is too.
#[verifier::external_body]
fn parse_json_string_map(s: &str) -> (r: Option<Vec<(String, u64)>>)
    ensures
        r is Some <==> json_vocab_of(s@) is Some,
        r is Some ==> r->0.deep_view() == json_vocab_of(s@)->0,
{
    let m: std::collections::BTreeMap<String, u64> = match serde_json::from_str(s) {
        Ok(m) => m,
        Err(_) => return None,
    };
    Some(m.into_iter().collect())
}

/// The end-of-text reserved token.
pub open spec fn eot_tok() -> Seq<char> {
    seq!['<', '|', 'e', 'n', 'd', 'o', 'f', 't', 'e', 'x', 't', '|', '>']
}

/// First entry carrying ID `id`, or the list length.
pub open spec fn pair_with(pairs: Seq<(Seq<char>, u64)>, id: int) -> int
    decreases pairs.len(),
{
    if pairs.len() == 0 {
        0
    } else if pairs[0].1 as int == id {
        0
    } else {
        1 + pair_with(pairs.skip(1), id)
    }
}

pub proof fn lemma_pair_with(pairs: Seq<(Seq<char>, u64)>, id: int)
    ensures
        0 <= pair_with(pairs, id) <= pairs.len(),
        pair_with(pairs, id) < pairs.len() ==> pairs[pair_with(pairs, id)].1 as int == id,
        forall|m: int| 0 <= m < pair_with(pairs, id) ==> (#[trigger] pairs[m]).1 as int != id,
    decreases pairs.len(),
{
    if pairs.len() > 0 && pairs[0].1 as int != id {
        lemma_pair_with(pairs.skip(1), id);
        assert forall|m: int| 0 <= m < pair_with(pairs, id) implies (#[trigger] pairs[m]).1 as int
            != id by {
            if m > 0 {
                assert(pairs.skip(1)[m - 1] == pairs[m]);
            }
        }
        if pair_with(pairs, id) < pairs.len() {
            assert(pairs.skip(1)[pair_with(pairs, id) - 1] == pairs[pair_with(pairs, id)]);
        }
    }
}

/// Builds the dense imported vocabulary: for every ID below the entry
/// count, the first entry carrying that ID supplies the token; a missing
/// ID, an empty token or a duplicate token is `InvalidData`.
pub open spec fn import_vocab(
    pairs: Seq<(Seq<char>, u64)>,
    id: int,
    acc: Seq<Seq<char>>,
) -> Result<Seq<Seq<char>>, TokError>
    decreases pairs.len() - id,
{
    if !(0 <= id <= pairs.len()) {
        Err(TokError::InvalidData)
    } else if id == pairs.len() {
        Ok(acc)
    } else {
        let k = pair_with(pairs, id);
        if k >= pairs.len() {
            Err(TokError::InvalidData)
        } else {
            let tok = pairs[k].0;
            if tok.len() == 0 || has_tok(acc, tok) {
                Err(TokError::InvalidData)
            } else {
                import_vocab(pairs, id + 1, acc.push(tok))
            }
        }
    }
}

/// Ensures a token spells a literal newline: if none does, the end-of-text
/// token's ID is repurposed, or failing that the space marker's;
/// `InvalidData` when neither exists.
pub open spec fn fix_newline(v: Seq<Seq<char>>) -> Result<Seq<Seq<char>>, TokError> {
    if has_tok(v, seq!['\n']) {
        Ok(v)
    } else if has_tok(v, eot_tok()) {
        Ok(v.update(idx_of(v, eot_tok()), seq!['\n']))
    } else if has_tok(v, seq![crate::text::marker()]) {
        Ok(v.update(idx_of(v, seq![crate::text::marker()]), seq!['\n']))
    } else {
        Err(TokError::InvalidData)
    }
}

/// The imported rank list: the rank file's first line is skipped, and every
/// later line with exactly two whitespace-separated fields that both
/// resolve to vocabulary strings contributes the pair at the next rank;
/// other lines are skipped.
pub open spec fn import_ranks(
    v: Seq<Seq<char>>,
    lines: Seq<Seq<char>>,
    i: int,
    acc: Seq<(Seq<char>, Seq<char>)>,
) -> Seq<(Seq<char>, Seq<char>)>
    decreases lines.len() - i,
{
    if !(1 <= i < lines.len()) {
        acc
    } else {
        let ws = words_from(lines[i], 0);
        if ws.len() == 2 && has_tok(v, ws[0]) && has_tok(v, ws[1]) {
            import_ranks(v, lines, i + 1, acc.push((ws[0], ws[1])))
        } else {
            import_ranks(v, lines, i + 1, acc)
        }
    }
}

/// The whole external import from plain values: vocabulary entries and the
/// rank file's text.
pub open spec fn import_spec(pairs: Seq<(Seq<char>, u64)>, ranks_text: Seq<char>) -> Result<
    (Seq<Seq<char>>, Seq<(Seq<char>, Seq<char>)>),
    TokError,
> {
    match import_vocab(pairs, 0, seq![]) {
        Err(e) => Err(e),
        Ok(v0) => match fix_newline(v0) {
            Err(e) => Err(e),
            Ok(v) => Ok((v, import_ranks(v, lines_from(ranks_text, 0), 1, seq![]))),
        },
    }
}

impl crate::tokenizer::BPETokenizer {
    /// Installs an externally trained vocabulary and rank table handed over
    /// as plain values: the string-to-ID entries of the vocabulary file and
    /// the rank file's text.  On success the rank list drives merging and
    /// the id-pair table is empty; on failure the tokenizer is unchanged.
    pub fn import_external(&mut self, pairs: &Vec<(String, u64)>, ranks_data: &str) -> (r: Result<
        (),
        TokError,
    >)
        ensures
            match r {
                Ok(()) => {
                    &&& import_spec(pairs.deep_view(), ranks_data@) == Ok::<
                        (Seq<Seq<char>>, Seq<(Seq<char>, Seq<char>)>),
                        TokError,
                    >((final(self).toks(), final(self).rank_pairs()))
                    &&& final(self).merges@ =~= Seq::<MergeRule>::empty()
                    &&& final(self).wf()
                    &&& final(self).special_toks() == old(self).special_toks()
                },
                Err(e) => {
                    &&& *final(self) == *old(self)
                    &&& import_spec(pairs.deep_view(), ranks_data@) == Err::<
                        (Seq<Seq<char>>, Seq<(Seq<char>, Seq<char>)>),
                        TokError,
                    >(e)
                },
            },
    {
        let ghost pdv = pairs.deep_view();
        let mut voc = crate::vocab::Vocabulary::new();
        let mut id: usize = 0;
        while id < pairs.len()
            invariant
                id <= pairs@.len(),
                pdv == pairs.deep_view(),
                pdv.len() == pairs@.len(),
                voc.wf(),
                import_vocab(pdv, 0, Seq::<Seq<char>>::empty()) == import_vocab(
                    pdv,
                    id as int,
                    voc.toks(),
                ),
                voc.toks().len() == id,
            decreases pairs@.len() - id,
        {
            proof {
                lemma_pair_with(pdv, id as int);
            }
            let mut k: usize = 0;
            let mut found: usize = pairs.len();
            while k < pairs.len()
                invariant
                    k <= pairs@.len(),
                    pdv == pairs.deep_view(),
                    pdv.len() == pairs@.len(),
                    found == pairs@.len() ==> forall|m: int|
                        0 <= m < k ==> (#[trigger] pdv[m]).1 as int != id,
                    found < pairs@.len() ==> found as int == pair_with(pdv, id as int),
                    found <= pairs@.len(),
                decreases pairs@.len() - k,
            {
                if found == pairs.len() {
                    proof {
                        assert(pdv[k as int] == (pairs@[k as int].0@, pairs@[k as int].1));
                    }
                    if pairs[k].1 == id as u64 {
                        found = k;
                        proof {
                            lemma_pair_with(pdv, id as int);
                        }
                    }
                }
                k = k + 1;
            }
            if found == pairs.len() {
                proof {
                    lemma_pair_with(pdv, id as int);
                    assert(pair_with(pdv, id as int) == pdv.len());
                }
                return Err(TokError::InvalidData);
            }
            proof {
                assert(pdv[found as int] == (pairs@[found as int].0@, pairs@[found as int].1));
            }
            let tok = crate::text::to_chars(pairs[found].0.as_str());
            let sz = voc.size();
            match voc.insert(sz, tok) {
                Ok(()) => {},
                Err(_) => {
                    return Err(TokError::InvalidData);
                },
            }
            id = id + 1;
        }
        // Make sure a literal-newline token exists.
        let mut nl: Vec<char> = Vec::new();
        nl.push('\n');
        proof {
            assert(nl@ =~= seq!['\n']);
        }
        if !voc.contains_tok(&nl) {
            let mut eot: Vec<char> = Vec::new();
            eot.push('<');
            eot.push('|');
            eot.push('e');
            eot.push('n');
            eot.push('d');
            eot.push('o');
            eot.push('f');
            eot.push('t');
            eot.push('e');
            eot.push('x');
            eot.push('t');
            eot.push('|');
            eot.push('>');
            proof {
                assert(eot@ =~= eot_tok());
            }
            let mut mk: Vec<char> = Vec::new();
            mk.push(crate::text::marker_char());
            proof {
                assert(mk@ =~= seq![crate::text::marker()]);
            }
            let slot = match voc.id_of(&eot) {
                Ok(e) => e,
                Err(_) => match voc.id_of(&mk) {
                    Ok(m) => m,
                    Err(_) => {
                        return Err(TokError::InvalidData);
                    },
                },
            };
            proof {
                crate::vocab::lemma_idx_of(voc.toks(), eot_tok());
                crate::vocab::lemma_idx_of(voc.toks(), seq![crate::text::marker()]);
            }
            match voc.replace(slot, nl) {
                Ok(()) => {},
                Err(_) => {
                    proof {
                        assert(false);
                    }
                    return Err(TokError::InvalidData);
                },
            }
        }
        proof {
            assert(fix_newline(import_vocab(pdv, 0, Seq::<Seq<char>>::empty())->Ok_0) == Ok::<
                Seq<Seq<char>>,
                TokError,
            >(voc.toks()));
        }
        // The rank file: skip the header line, then two-field lines whose
        // strings both resolve.
        let rt = crate::text::to_chars(ranks_data);
        let rlines = crate::text::split_lines(&rt);
        let ghost rdv = rlines.deep_view();
        let mut ranks: Vec<(Vec<char>, Vec<char>)> = Vec::new();
        let mut li: usize = 1;
        let ghost rview = ranks@.map_values(|p: (Vec<char>, Vec<char>)| (p.0@, p.1@));
        proof {
            assert(ranks@.map_values(|p: (Vec<char>, Vec<char>)| (p.0@, p.1@))
                =~~= Seq::<(Seq<char>, Seq<char>)>::empty());
        }
        while li < rlines.len()
            invariant
                1 <= li <= rlines@.len() || (rlines@.len() < 1 && li == 1),
                rdv == rlines.deep_view(),
                rdv.len() == rlines@.len(),
                import_ranks(voc.toks(), rdv, 1, Seq::<(Seq<char>, Seq<char>)>::empty())
                    == import_ranks(
                    voc.toks(),
                    rdv,
                    li as int,
                    ranks@.map_values(|p: (Vec<char>, Vec<char>)| (p.0@, p.1@)),
                ),
            decreases rlines@.len() - li,
        {
            proof {
                assert(rdv[li as int] == rlines@[li as int]@);
            }
            let ws = crate::text::split_words(&rlines[li]);
            let ghost wdv = ws.deep_view();
            if ws.len() == 2 {
                proof {
                    assert(wdv[0] == ws@[0]@);
                    assert(wdv[1] == ws@[1]@);
                }
                if voc.contains_tok(&ws[0]) && voc.contains_tok(&ws[1]) {
                    let ghost before = ranks@.map_values(
                        |p: (Vec<char>, Vec<char>)| (p.0@, p.1@),
                    );
                    let w0 = crate::text::copy_chars(&ws[0]);
                    let w1 = crate::text::copy_chars(&ws[1]);
                    ranks.push((w0, w1));
                    proof {
                        assert(ranks@.map_values(|p: (Vec<char>, Vec<char>)| (p.0@, p.1@))
                            =~~= before.push((wdv[0], wdv[1])));
                    }
                } else {
                }
            }
            li = li + 1;
        }
        proof {
            assert(import_ranks(
                voc.toks(),
                rdv,
                rdv.len() as int,
                ranks@.map_values(|p: (Vec<char>, Vec<char>)| (p.0@, p.1@)),
            ) == ranks@.map_values(|p: (Vec<char>, Vec<char>)| (p.0@, p.1@)));
        }
        self.vocab = voc;
        self.merges = Vec::new();
        self.ranks = ranks;
        Ok(())
    }

    /// Loads an externally trained vocabulary (a JSON string-to-ID object)
    /// and rank file.  The JSON is parsed by the trusted wrapper around
    /// `serde_json`; everything after it is verified against
    /// [`import_spec`].
    pub fn load_vocab_and_merges_from_openai(&mut self, vocab_data: &str, bpe_merges_data: &str)
        -> (r: Result<(), TokError>)
        ensures
            match json_vocab_of(vocab_data@) {
                Option::None => r == Err::<(), TokError>(TokError::InvalidData) && *final(self)
                    == *old(self),
                Option::Some(pv) => match r {
                    Ok(()) => {
                        &&& import_spec(pv, bpe_merges_data@) == Ok::<
                            (Seq<Seq<char>>, Seq<(Seq<char>, Seq<char>)>),
                            TokError,
                        >((final(self).toks(), final(self).rank_pairs()))
                        &&& final(self).merges@ =~= Seq::<MergeRule>::empty()
                        &&& final(self).wf()
                        &&& final(self).special_toks() == old(self).special_toks()
                    },
                    Err(e) => *final(self) == *old(self) && import_spec(pv, bpe_merges_data@)
                        == Err::<(Seq<Seq<char>>, Seq<(Seq<char>, Seq<char>)>), TokError>(e),
                },
            },
    {
        let pairs = match parse_json_string_map(vocab_data) {
            Some(p) => p,
            None => {
                return Err(TokError::InvalidData);
            },
        };
        self.import_external(&pairs, bpe_merges_data)
    }
}

} // verus!
