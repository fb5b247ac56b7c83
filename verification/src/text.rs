//! Character-level text utilities shared by the trainer, the encoder and the
//! persistence layer: whitespace classification, line and word segmentation,
//! and conversions between `String` and `Vec<char>`.
//!
//! Token strings are handled as `Vec<char>` throughout the library so that
//! every operation on them is verified against its `Seq<char>` view.

use vstd::prelude::*;
use vstd::string::StrSliceExecFns;

verus! {

/// The space marker, U+0120 (a capital G with a dot above).  Every literal
/// space of the training text is replaced by this character before vocabulary
/// construction so that word boundaries survive tokenization.
pub open spec fn marker() -> char {
    '\u{0120}'
}

/// Exec twin of [`marker`].
pub fn marker_char() -> (c: char)
    ensures
        c == marker(),
{
    '\u{0120}'
}

/// Unicode whitespace, the class that word segmentation splits on.
pub open spec fn is_ws(c: char) -> bool {
    ||| c == ' '
    ||| c == '\t'
    ||| c == '\n'
    ||| c == '\u{0b}'
    ||| c == '\u{0c}'
    ||| c == '\r'
    ||| c == '\u{85}'
    ||| c == '\u{a0}'
    ||| c == '\u{1680}'
    ||| (c as u32 >= 0x2000 && c as u32 <= 0x200a)
    ||| c == '\u{2028}'
    ||| c == '\u{2029}'
    ||| c == '\u{202f}'
    ||| c == '\u{205f}'
    ||| c == '\u{3000}'
}

/// Exec twin of [`is_ws`].
pub fn ws_char(c: char) -> (r: bool)
    ensures
        r == is_ws(c),
{
    c == ' ' || c == '\t' || c == '\n' || c == '\u{0b}' || c == '\u{0c}' || c == '\r' || c
        == '\u{85}' || c == '\u{a0}' || c == '\u{1680}' || (c as u32 >= 0x2000 && c as u32
        <= 0x200a) || c == '\u{2028}' || c == '\u{2029}' || c == '\u{202f}' || c == '\u{205f}' || c
        == '\u{3000}'
}

/// Collects the characters of a string slice into a vector.
pub fn to_chars(s: &str) -> (r: Vec<char>)
    ensures
        r@ == s@,
{
    let n = s.unicode_len();
    let mut r: Vec<char> = Vec::new();
    let mut i: usize = 0;
    while i < n
        invariant
            i <= n,
            r@ == s@.take(i as int),
        decreases n - i,
    {
        r.push(s.get_char(i));
        proof {
            assert(s@.take(i + 1) =~= s@.take(i as int).push(s@[i as int]));
        }
        i = i + 1;
    }
    proof {
        assert(s@.take(n as int) =~= s@);
    }
    r
}

/// Relies on `String::push`: appends one character at the end of the string.
#[verifier::external_body]
fn push_char(s: &mut String, c: char)
    ensures
        final(s)@ == old(s)@.push(c),
{
    s.push(c);
}

/// Builds a `String` holding exactly the given characters.
pub fn chars_to_string(v: &Vec<char>) -> (r: String)
    ensures
        r@ == v@,
{
    let mut r = String::new();
    let mut i: usize = 0;
    while i < v.len()
        invariant
            i <= v.len(),
            r@ == v@.take(i as int),
        decreases v.len() - i,
    {
        push_char(&mut r, v[i]);
        proof {
            assert(v@.take(i + 1) =~= v@.take(i as int).push(v@[i as int]));
        }
        i = i + 1;
    }
    proof {
        assert(v@.take(v.len() as int) =~= v@);
    }
    r
}

/// Character-wise equality of two token strings.
pub fn eq_chars(a: &Vec<char>, b: &Vec<char>) -> (r: bool)
    ensures
        r == (a@ == b@),
{
    if a.len() != b.len() {
        proof {
            assert(a@ != b@) by {
                assert(a@.len() != b@.len());
            }
        }
        return false;
    }
    let mut i: usize = 0;
    while i < a.len()
        invariant
            i <= a.len(),
            a@.len() == b@.len(),
            forall|j: int| 0 <= j < i ==> a@[j] == b@[j],
        decreases a.len() - i,
    {
        if a[i] != b[i] {
            return false;
        }
        i = i + 1;
    }
    proof {
        assert(a@ =~= b@);
    }
    true
}

/// Concatenation of two token strings.
pub fn concat_chars(a: &Vec<char>, b: &Vec<char>) -> (r: Vec<char>)
    ensures
        r@ == a@ + b@,
{
    let mut r: Vec<char> = Vec::new();
    let mut i: usize = 0;
    while i < a.len()
        invariant
            i <= a.len(),
            r@ == a@.take(i as int),
        decreases a.len() - i,
    {
        r.push(a[i]);
        proof {
            assert(a@.take(i + 1) =~= a@.take(i as int).push(a@[i as int]));
        }
        i = i + 1;
    }
    let mut j: usize = 0;
    while j < b.len()
        invariant
            j <= b.len(),
            r@ == a@ + b@.take(j as int),
        decreases b.len() - j,
    {
        r.push(b[j]);
        proof {
            assert(a@ + b@.take(j + 1) =~= (a@ + b@.take(j as int)).push(b@[j as int]));
        }
        j = j + 1;
    }
    proof {
        assert(a@.take(a.len() as int) =~= a@);
        assert(a@ + b@.take(b.len() as int) =~= a@ + b@);
    }
    r
}

/// A fresh copy of a token string.
pub fn copy_chars(a: &Vec<char>) -> (r: Vec<char>)
    ensures
        r@ == a@,
{
    let mut r: Vec<char> = Vec::new();
    let mut i: usize = 0;
    while i < a.len()
        invariant
            i <= a.len(),
            r@ == a@.take(i as int),
        decreases a.len() - i,
    {
        r.push(a[i]);
        proof {
            assert(a@.take(i + 1) =~= a@.take(i as int).push(a@[i as int]));
        }
        i = i + 1;
    }
    proof {
        assert(a@.take(a.len() as int) =~= a@);
    }
    r
}

/// First position at or after `i` holding a whitespace character, or the
/// length of `s` if there is none.
pub open spec fn find_ws(s: Seq<char>, i: int) -> int
    decreases s.len() - i,
{
    if i < 0 {
        0
    } else if i >= s.len() {
        s.len() as int
    } else if is_ws(s[i]) {
        i
    } else {
        find_ws(s, i + 1)
    }
}

/// First position at or after `i` holding a newline, or the length of `s`.
pub open spec fn find_nl(s: Seq<char>, i: int) -> int
    decreases s.len() - i,
{
    if i < 0 {
        0
    } else if i >= s.len() {
        s.len() as int
    } else if s[i] == '\n' {
        i
    } else {
        find_nl(s, i + 1)
    }
}

pub proof fn lemma_find_ws(s: Seq<char>, i: int)
    requires
        0 <= i <= s.len(),
    ensures
        i <= find_ws(s, i) <= s.len(),
        forall|m: int| i <= m < find_ws(s, i) ==> !is_ws(s[m]),
        find_ws(s, i) < s.len() ==> is_ws(s[find_ws(s, i)]),
    decreases s.len() - i,
{
    if i < s.len() && !is_ws(s[i]) {
        lemma_find_ws(s, i + 1);
    }
}

pub proof fn lemma_find_nl(s: Seq<char>, i: int)
    requires
        0 <= i <= s.len(),
    ensures
        i <= find_nl(s, i) <= s.len(),
        forall|m: int| i <= m < find_nl(s, i) ==> s[m] != '\n',
        find_nl(s, i) < s.len() ==> s[find_nl(s, i)] == '\n',
    decreases s.len() - i,
{
    if i < s.len() && s[i] != '\n' {
        lemma_find_nl(s, i + 1);
    }
}

/// The lines of `s` from position `i` on, split at newline characters.  As
/// with `str::split`, a trailing newline yields a final empty line.
pub open spec fn lines_from(s: Seq<char>, i: int) -> Seq<Seq<char>>
    decreases s.len() - i,
    via lines_from_dec
{
    if !(0 <= i <= s.len()) {
        seq![]
    } else {
        let k = find_nl(s, i);
        if k >= s.len() {
            seq![s.subrange(i, s.len() as int)]
        } else {
            seq![s.subrange(i, k)] + lines_from(s, k + 1)
        }
    }
}

#[via_fn]
proof fn lines_from_dec(s: Seq<char>, i: int) {
    if 0 <= i <= s.len() {
        lemma_find_nl(s, i);
    }
}

/// The whitespace-separated words of `s` from position `i` on, in order.
pub open spec fn words_from(s: Seq<char>, i: int) -> Seq<Seq<char>>
    decreases s.len() - i,
    via words_from_dec
{
    if !(0 <= i < s.len()) {
        seq![]
    } else if is_ws(s[i]) {
        words_from(s, i + 1)
    } else {
        let j = find_ws(s, i);
        seq![s.subrange(i, j)] + words_from(s, j)
    }
}

#[via_fn]
proof fn words_from_dec(s: Seq<char>, i: int) {
    if 0 <= i < s.len() && !is_ws(s[i]) {
        lemma_find_ws(s, i);
    }
}

/// The token strings of one line: every word is prefixed with the space
/// marker, except the very first word of the first line of the text.
pub open spec fn line_tokens(words: Seq<Seq<char>>, first_line: bool) -> Seq<Seq<char>> {
    words.map(
        |j: int, w: Seq<char>|
            if first_line && j == 0 {
                w
            } else {
                seq![marker()] + w
            },
    )
}

/// The token strings of the lines `i..` of a text: a canonical newline token
/// before every line but the first, then that line's word tokens.
pub open spec fn segs_of_lines(lines: Seq<Seq<char>>, i: int) -> Seq<Seq<char>>
    decreases lines.len() - i,
{
    if !(0 <= i < lines.len()) {
        seq![]
    } else {
        (if i > 0 {
            seq![seq!['\n']]
        } else {
            seq![]
        }) + line_tokens(words_from(lines[i], 0), i == 0) + segs_of_lines(lines, i + 1)
    }
}

/// The segment strings the encoder produces for a text: lines split at
/// newlines, words split at whitespace, markers marking word boundaries.
pub open spec fn segs_of(text: Seq<char>) -> Seq<Seq<char>> {
    segs_of_lines(lines_from(text, 0), 0)
}

/// The characters of `v` in positions `from..to`.
pub fn subvec(v: &Vec<char>, from: usize, to: usize) -> (r: Vec<char>)
    requires
        from <= to <= v@.len(),
    ensures
        r@ == v@.subrange(from as int, to as int),
{
    let mut r: Vec<char> = Vec::new();
    let mut i: usize = from;
    while i < to
        invariant
            from <= i <= to,
            r@ == v@.subrange(from as int, i as int),
        decreases to - i,
    {
        r.push(v[i]);
        proof {
            assert(v@.subrange(from as int, i + 1) =~= v@.subrange(from as int, i as int).push(
                v@[i as int],
            ));
        }
        i = i + 1;
    }
    r
}

/// Exec twin of [`find_ws`].
pub fn find_ws_at(v: &Vec<char>, from: usize) -> (r: usize)
    requires
        from <= v@.len(),
    ensures
        r == find_ws(v@, from as int),
        from <= r <= v@.len(),
{
    proof {
        lemma_find_ws(v@, from as int);
    }
    let mut i: usize = from;
    while i < v.len()
        invariant
            from <= i <= v@.len(),
            find_ws(v@, from as int) == find_ws(v@, i as int),
        decreases v.len() - i,
    {
        if ws_char(v[i]) {
            return i;
        }
        i = i + 1;
    }
    i
}

/// Exec twin of [`find_nl`].
pub fn find_nl_at(v: &Vec<char>, from: usize) -> (r: usize)
    requires
        from <= v@.len(),
    ensures
        r == find_nl(v@, from as int),
        from <= r <= v@.len(),
{
    proof {
        lemma_find_nl(v@, from as int);
    }
    let mut i: usize = from;
    while i < v.len()
        invariant
            from <= i <= v@.len(),
            find_nl(v@, from as int) == find_nl(v@, i as int),
        decreases v.len() - i,
    {
        if v[i] == '\n' {
            return i;
        }
        i = i + 1;
    }
    i
}

/// Splits a text into its lines, at newline characters.
pub fn split_lines(text: &Vec<char>) -> (r: Vec<Vec<char>>)
    ensures
        r.deep_view() == lines_from(text@, 0),
        r@.len() >= 1,
{
    let mut r: Vec<Vec<char>> = Vec::new();
    let mut pos: usize = 0;
    loop
        invariant
            pos <= text@.len(),
            lines_from(text@, 0) == r.deep_view() + lines_from(text@, pos as int),
            find_nl(text@, pos as int) == find_nl(text@, pos as int),
        decreases text@.len() - pos,
    {
        let k = find_nl_at(text, pos);
        let ghost before = r.deep_view();
        let line = subvec(text, pos, k);
        r.push(line);
        proof {
            assert(r.deep_view() =~~= before.push(line@));
        }
        if k == text.len() {
            proof {
                assert(lines_from(text@, pos as int) =~~= seq![
                    text@.subrange(pos as int, text@.len() as int),
                ]);
                assert(lines_from(text@, 0) =~~= r.deep_view() + Seq::<Seq<char>>::empty());
                assert(lines_from(text@, 0) =~~= r.deep_view());
            }
            break ;
        }
        proof {
            lemma_find_nl(text@, pos as int);
            assert(lines_from(text@, pos as int) =~~= seq![text@.subrange(pos as int, k as int)]
                + lines_from(text@, k + 1));
            assert(before + lines_from(text@, pos as int) =~~= before.push(line@) + lines_from(
                text@,
                k + 1,
            ));
        }
        pos = k + 1;
    }
    r
}

/// Splits one line into its whitespace-separated words.
pub fn split_words(line: &Vec<char>) -> (r: Vec<Vec<char>>)
    ensures
        r.deep_view() == words_from(line@, 0),
{
    let mut r: Vec<Vec<char>> = Vec::new();
    let mut pos: usize = 0;
    while pos < line.len()
        invariant
            pos <= line@.len(),
            words_from(line@, 0) == r.deep_view() + words_from(line@, pos as int),
        decreases line@.len() - pos,
    {
        if ws_char(line[pos]) {
            pos = pos + 1;
        } else {
            proof {
                lemma_find_ws(line@, pos as int);
            }
            let j = find_ws_at(line, pos);
            let ghost before = r.deep_view();
            let w = subvec(line, pos, j);
            r.push(w);
            proof {
                assert(r.deep_view() =~~= before.push(w@));
                assert(words_from(line@, pos as int) =~~= seq![
                    line@.subrange(pos as int, j as int),
                ] + words_from(line@, j as int));
                assert(before + words_from(line@, pos as int) =~~= before.push(w@) + words_from(
                    line@,
                    j as int,
                ));
            }
            pos = j;
        }
    }
    proof {
        assert(words_from(line@, 0) =~~= r.deep_view() + Seq::<Seq<char>>::empty());
        assert(words_from(line@, 0) =~~= r.deep_view());
    }
    r
}

/// A word prefixed with the space marker.
fn marked_word(w: &Vec<char>) -> (r: Vec<char>)
    ensures
        r@ == seq![marker()] + w@,
{
    let mut r: Vec<char> = Vec::new();
    r.push(marker_char());
    let mut k: usize = 0;
    while k < w.len()
        invariant
            k <= w@.len(),
            r@ == seq![marker()] + w@.take(k as int),
        decreases w@.len() - k,
    {
        r.push(w[k]);
        proof {
            assert(seq![marker()] + w@.take(k + 1) =~= (seq![marker()] + w@.take(k as int)).push(
                w@[k as int],
            ));
        }
        k = k + 1;
    }
    proof {
        assert(w@.take(w@.len() as int) =~= w@);
    }
    r
}

/// The token strings of one line: each word bare or marker-prefixed.
fn line_segs(line: &Vec<char>, first: bool) -> (r: Vec<Vec<char>>)
    ensures
        r.deep_view() == line_tokens(words_from(line@, 0), first),
{
    let words = split_words(line);
    let ghost wdv = words.deep_view();
    let ghost toks = line_tokens(wdv, first);
    let mut r: Vec<Vec<char>> = Vec::new();
    let mut j: usize = 0;
    proof {
        assert(r.deep_view() =~~= toks.take(0));
    }
    while j < words.len()
        invariant
            j <= words@.len(),
            wdv == words.deep_view(),
            wdv.len() == words@.len(),
            toks == line_tokens(wdv, first),
            r.deep_view() =~~= toks.take(j as int),
        decreases words@.len() - j,
    {
        let ghost before = r.deep_view();
        proof {
            assert(wdv[j as int] == words@[j as int]@);
        }
        if first && j == 0 {
            let w = copy_chars(&words[j]);
            r.push(w);
            proof {
                assert(r.deep_view() =~~= before.push(wdv[j as int]));
            }
        } else {
            let w = marked_word(&words[j]);
            r.push(w);
            proof {
                assert(r.deep_view() =~~= before.push(seq![marker()] + wdv[j as int]));
            }
        }
        proof {
            assert(toks[j as int] == (if first && j == 0 {
                wdv[j as int]
            } else {
                seq![marker()] + wdv[j as int]
            }));
            assert(toks.take(j + 1) =~~= toks.take(j as int).push(toks[j as int]));
        }
        j = j + 1;
    }
    proof {
        assert(toks.take(wdv.len() as int) =~~= toks);
    }
    r
}

/// Splits a text into the encoder's segment strings: a `"\n"` token between
/// lines, and each word bare (the text's very first word) or prefixed with
/// the space marker (every other word).
pub fn split_segments(text: &Vec<char>) -> (r: Vec<Vec<char>>)
    ensures
        r.deep_view() == segs_of(text@),
{
    let lines = split_lines(text);
    let ghost ldv = lines.deep_view();
    let mut r: Vec<Vec<char>> = Vec::new();
    let mut i: usize = 0;
    while i < lines.len()
        invariant
            i <= lines@.len(),
            ldv == lines.deep_view(),
            ldv.len() == lines@.len(),
            segs_of_lines(ldv, 0) == r.deep_view() + segs_of_lines(ldv, i as int),
        decreases lines@.len() - i,
    {
        let ghost at_entry = r.deep_view();
        if i > 0 {
            let mut nl: Vec<char> = Vec::new();
            nl.push('\n');
            let ghost before = r.deep_view();
            r.push(nl);
            proof {
                assert(nl@ =~= seq!['\n']);
                assert(r.deep_view() =~~= before.push(seq!['\n']));
            }
        }
        proof {
            assert(ldv[i as int] == lines@[i as int]@);
        }
        let mut ls = line_segs(&lines[i], i == 0);
        let ghost lsdv = ls.deep_view();
        let ghost mid = r.deep_view();
        r.append(&mut ls);
        proof {
            assert(r.deep_view() =~~= mid + lsdv);
            assert(segs_of_lines(ldv, i as int) =~~= (if i > 0 {
                seq![seq!['\n']]
            } else {
                Seq::<Seq<char>>::empty()
            }) + line_tokens(words_from(ldv[i as int], 0), i == 0) + segs_of_lines(ldv, i + 1));
            assert(at_entry + segs_of_lines(ldv, i as int) =~~= r.deep_view() + segs_of_lines(
                ldv,
                i + 1,
            ));
        }
        i = i + 1;
    }
    proof {
        assert(segs_of_lines(ldv, ldv.len() as int) =~~= Seq::<Seq<char>>::empty());
        assert(segs_of_lines(ldv, 0) =~~= r.deep_view());
    }
    r
}

} // verus!
