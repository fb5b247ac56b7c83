//! The vocabulary: a bidirectional table between dense token IDs and token
//! strings.  IDs start at 0 and are assigned in insertion order; the mapping
//! is a bijection, and every token string is nonempty.

use vstd::prelude::*;
use crate::text::eq_chars;
use crate::text::copy_chars;
use crate::TokError;

verus! {

/// First index of token `t` in `v` at or after `i`, or `v.len()` if absent.
pub open spec fn idx_from(v: Seq<Seq<char>>, t: Seq<char>, i: int) -> int
    decreases v.len() - i,
{
    if !(0 <= i < v.len()) {
        v.len() as int
    } else if v[i] == t {
        i
    } else {
        idx_from(v, t, i + 1)
    }
}

/// First index of token `t` in `v`, or `v.len()` if absent.
pub open spec fn idx_of(v: Seq<Seq<char>>, t: Seq<char>) -> int {
    idx_from(v, t, 0)
}

/// Whether token `t` occurs in `v`.
pub open spec fn has_tok(v: Seq<Seq<char>>, t: Seq<char>) -> bool {
    exists|i: int| 0 <= i < v.len() && v[i] == t
}

pub proof fn lemma_idx_from(v: Seq<Seq<char>>, t: Seq<char>, i: int)
    requires
        0 <= i <= v.len(),
    ensures
        i <= idx_from(v, t, i) <= v.len(),
        idx_from(v, t, i) < v.len() ==> v[idx_from(v, t, i)] == t,
        forall|m: int| i <= m < idx_from(v, t, i) ==> v[m] != t,
        (idx_from(v, t, i) < v.len()) == (exists|m: int| i <= m < v.len() && v[m] == t),
    decreases v.len() - i,
{
    if 0 <= i < v.len() && v[i] != t {
        lemma_idx_from(v, t, i + 1);
    }
}

pub proof fn lemma_idx_of(v: Seq<Seq<char>>, t: Seq<char>)
    ensures
        0 <= idx_of(v, t) <= v.len(),
        idx_of(v, t) < v.len() ==> v[idx_of(v, t)] == t,
        forall|m: int| 0 <= m < idx_of(v, t) ==> v[m] != t,
        (idx_of(v, t) < v.len()) == has_tok(v, t),
{
    lemma_idx_from(v, t, 0);
}

/// A bidirectional table between dense token IDs and token strings.
pub struct Vocabulary {
    pub entries: Vec<Vec<char>>,
}

impl Vocabulary {
    /// The token strings, in ID order: entry `i` is the token with ID `i`.
    pub open spec fn toks(self) -> Seq<Seq<char>> {
        self.entries.deep_view()
    }

    /// The vocabulary invariant: no two IDs share a string, and every token
    /// string is nonempty.
    pub open spec fn wf(self) -> bool {
        &&& forall|i: int, j: int|
            0 <= i < j < self.toks().len() ==> self.toks()[i] != self.toks()[j]
        &&& forall|i: int| 0 <= i < self.toks().len() ==> self.toks()[i].len() > 0
    }

    /// An empty vocabulary.
    pub fn new() -> (r: Vocabulary)
        ensures
            r.toks() =~= Seq::<Seq<char>>::empty(),
            r.wf(),
    {
        Vocabulary { entries: Vec::new() }
    }

    /// The number of entries.
    pub fn size(&self) -> (r: usize)
        ensures
            r == self.toks().len(),
    {
        self.entries.len()
    }

    /// Whether the token string is present.
    pub fn contains_tok(&self, t: &Vec<char>) -> (r: bool)
        ensures
            r == has_tok(self.toks(), t@),
    {
        proof {
            lemma_idx_of(self.toks(), t@);
        }
        let mut i: usize = 0;
        while i < self.entries.len()
            invariant
                i <= self.toks().len(),
                forall|m: int| 0 <= m < i ==> self.toks()[m] != t@,
            decreases self.toks().len() - i,
        {
            proof {
                assert(self.toks()[i as int] == self.entries@[i as int]@);
            }
            if eq_chars(&self.entries[i], t) {
                return true;
            }
            i = i + 1;
        }
        false
    }

    /// The ID of a token string; `NotFound` when it is absent.
    pub fn id_of(&self, t: &Vec<char>) -> (r: Result<usize, TokError>)
        ensures
            match r {
                Ok(id) => id == idx_of(self.toks(), t@) && id < self.toks().len()
                    && self.toks()[id as int] == t@,
                Err(e) => e == TokError::NotFound && !has_tok(self.toks(), t@),
            },
    {
        proof {
            lemma_idx_of(self.toks(), t@);
        }
        let mut i: usize = 0;
        while i < self.entries.len()
            invariant
                i <= self.toks().len(),
                forall|m: int| 0 <= m < i ==> self.toks()[m] != t@,
            decreases self.toks().len() - i,
        {
            proof {
                assert(self.toks()[i as int] == self.entries@[i as int]@);
            }
            if eq_chars(&self.entries[i], t) {
                return Ok(i);
            }
            i = i + 1;
        }
        Err(TokError::NotFound)
    }

    /// The token string of an ID; `NotFound` when the ID is absent.
    pub fn token_of(&self, id: usize) -> (r: Result<Vec<char>, TokError>)
        ensures
            match r {
                Ok(t) => id < self.toks().len() && t@ == self.toks()[id as int],
                Err(e) => e == TokError::NotFound && id >= self.toks().len(),
            },
    {
        if id < self.entries.len() {
            let t = copy_chars(&self.entries[id]);
            proof {
                assert(self.toks()[id as int] == self.entries@[id as int]@);
            }
            Ok(t)
        } else {
            Err(TokError::NotFound)
        }
    }

    /// Inserts a token under the next sequential ID.  Fails with
    /// `InvalidInput` when the ID is not the next free one, when the token is
    /// empty, or when the token string is already present (either failure
    /// would break the bijection or the density of the table).
    pub fn insert(&mut self, id: usize, tok: Vec<char>) -> (r: Result<(), TokError>)
        ensures
            match r {
                Ok(()) => {
                    &&& id == old(self).toks().len()
                    &&& tok@.len() > 0
                    &&& !has_tok(old(self).toks(), tok@)
                    &&& final(self).toks() == old(self).toks().push(tok@)
                },
                Err(e) => {
                    &&& e == TokError::InvalidInput
                    &&& *final(self) == *old(self)
                    &&& (id != old(self).toks().len() || tok@.len() == 0 || has_tok(
                        old(self).toks(),
                        tok@,
                    ))
                },
            },
            old(self).wf() && r is Ok ==> final(self).wf(),
    {
        if id != self.entries.len() || tok.len() == 0 {
            return Err(TokError::InvalidInput);
        }
        if self.contains_tok(&tok) {
            return Err(TokError::InvalidInput);
        }
        let ghost before = self.toks();
        self.entries.push(tok);
        proof {
            assert(self.toks() =~~= before.push(self.entries@[before.len() as int]@));
        }
        Ok(())
    }

    /// Repurposes an existing ID: replaces its token string with a new one.
    /// Fails with `InvalidInput` when the ID is absent, the new token is
    /// empty, or the new token is already present.
    pub fn replace(&mut self, id: usize, tok: Vec<char>) -> (r: Result<(), TokError>)
        ensures
            match r {
                Ok(()) => {
                    &&& id < old(self).toks().len()
                    &&& tok@.len() > 0
                    &&& !has_tok(old(self).toks(), tok@)
                    &&& final(self).toks() == old(self).toks().update(id as int, tok@)
                },
                Err(e) => {
                    &&& e == TokError::InvalidInput
                    &&& *final(self) == *old(self)
                    &&& (id >= old(self).toks().len() || tok@.len() == 0 || has_tok(
                        old(self).toks(),
                        tok@,
                    ))
                },
            },
            old(self).wf() && r is Ok ==> final(self).wf(),
    {
        if id >= self.entries.len() || tok.len() == 0 {
            return Err(TokError::InvalidInput);
        }
        if self.contains_tok(&tok) {
            return Err(TokError::InvalidInput);
        }
        let ghost before = self.toks();
        let ghost tokv = tok@;
        let _old_entry = self.entries.remove(id);
        self.entries.insert(id, tok);
        proof {
            assert(self.toks() =~~= before.update(id as int, tokv));
            if (forall|i: int, j: int| 0 <= i < j < before.len() ==> before[i] != before[j])
                && (forall|i: int| 0 <= i < before.len() ==> before[i].len() > 0) {
                let now = self.toks();
                assert forall|i: int, j: int| 0 <= i < j < now.len() implies now[i] != now[j] by {
                    if i != id && j != id {
                        assert(now[i] == before[i] && now[j] == before[j]);
                    }
                }
            }
        }
        Ok(())
    }
}

} // verus!
