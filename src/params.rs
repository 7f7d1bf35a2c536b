use crate::record::Record;
use crate::token::{LexView, TokenKind};
use vstd::prelude::*;

verus! {

/// Tokens that only separate others inside a group: whitespace and commas.
pub open spec fn is_separator(k: TokenKind) -> bool {
    k == TokenKind::Whitespace || k == TokenKind::Comma
}

/// Tokens that may stand between a parameter's name and its `=`: a dimension subscript
/// such as `(1:3)` and the layout round it.
pub open spec fn is_location(k: TokenKind) -> bool {
    k == TokenKind::LeftBracket || k == TokenKind::RightBracket || k == TokenKind::Colon || k
        == TokenKind::Number || k == TokenKind::NewLine || k == TokenKind::Comment
}

/// Indices, ascending, of the tokens at or after `from` that are no separators.
pub open spec fn significant(ts: Seq<LexView>, from: int) -> Seq<int>
    decreases ts.len(),
{
    if ts.len() <= from || ts.len() == 0 {
        Seq::empty()
    } else {
        let r = significant(ts.drop_last(), from);
        if is_separator(ts.last().1) {
            r
        } else {
            r.push(ts.len() - 1)
        }
    }
}

/// First position at or after `p` in `s` whose token is no location token.
pub open spec fn location_end(ts: Seq<LexView>, s: Seq<int>, p: int) -> int
    decreases s.len() - p,
{
    if p < 0 || p >= s.len() {
        s.len() as int
    } else if is_location(ts[s[p]].1) {
        location_end(ts, s, p + 1)
    } else {
        p
    }
}

/// First position at or after `p` in `s` whose token is a `/` or an `=`.
pub open spec fn value_end(ts: Seq<LexView>, s: Seq<int>, p: int) -> int
    decreases s.len() - p,
{
    if p < 0 || p >= s.len() {
        s.len() as int
    } else if ts[s[p]].1 == TokenKind::RightSlash || ts[s[p]].1 == TokenKind::Equals {
        p
    } else {
        value_end(ts, s, p + 1)
    }
}

/// Reads the assignments `name [subscript] = values...` from position `p` of `s` on, up
/// to the closing `/`. The values of an assignment run up to the next `=`, less the token
/// just before it, which names the next parameter. `acc` is the range of positions of the
/// values last given to `key`; an error gives the position of the token that breaks the
/// shape.
pub open spec fn scan(ts: Seq<LexView>, s: Seq<int>, key: Seq<char>, p: int, acc: Option<(int, int)>) -> Result<Option<(int, int)>, int>
    decreases s.len() - p,
{
    if p < 0 || p >= s.len() || ts[s[p]].1 == TokenKind::RightSlash {
        Ok(acc)
    } else if ts[s[p]].1 != TokenKind::Identifier {
        Err(p)
    } else {
        let e = location_end(ts, s, p + 1);
        if e >= s.len() || ts[s[e]].1 != TokenKind::Equals {
            Err(p)
        } else {
            let j = value_end(ts, s, e + 1);
            let vend = if j < s.len() && ts[s[j]].1 == TokenKind::Equals && j - 1 > e {
                j - 1
            } else {
                j
            };
            let acc2 = if ts[s[p]].2 == key {
                Some((e + 1, vend))
            } else {
                acc
            };
            if j < s.len() && ts[s[j]].1 == TokenKind::RightSlash {
                Ok(acc2)
            } else if p < vend <= s.len() {
                scan(ts, s, key, vend, acc2)
            } else {
                Ok(acc2)
            }
        }
    }
}

/// The value tokens (their indices) of the last assignment of `key` in a structured
/// record, `None` where there is none; an error where the record does not have the
/// group shape, with the index of the offending token where there is one.
pub open spec fn parameter_values_spec(ts: Seq<LexView>, key: Seq<char>) -> Result<Option<Seq<int>>, Option<int>> {
    if ts.len() == 0 {
        Err(None)
    } else if ts[0].1 != TokenKind::Ampersand {
        Err(Some(0))
    } else if ts.len() < 2 {
        Err(None)
    } else if ts[1].1 != TokenKind::Identifier {
        Err(Some(1))
    } else {
        let s = significant(ts, 2);
        match scan(ts, s, key, 0, None) {
            Ok(Some((a, b))) => Ok(Some(s.subrange(a, b))),
            Ok(None) => Ok(None),
            Err(p) => Err(Some(s[p])),
        }
    }
}

pub open spec fn opt_range(acc: Option<(usize, usize)>) -> Option<(int, int)> {
    match acc {
        Some((a, b)) => Some((a as int, b as int)),
        None => None,
    }
}

pub open spec fn same_indices(v: Seq<usize>, s: Seq<int>) -> bool {
    v.len() == s.len() && forall|i: int| 0 <= i < v.len() ==> v[i] as int == #[trigger] s[i]
}

fn location_kind(k: TokenKind) -> (r: bool)
    ensures
        r == is_location(k),
{
    k == TokenKind::LeftBracket || k == TokenKind::RightBracket || k == TokenKind::Colon || k
        == TokenKind::Number || k == TokenKind::NewLine || k == TokenKind::Comment
}

proof fn lemma_significant_bounds(ts: Seq<LexView>, from: int)
    requires
        from >= 0,
    ensures
        forall|i: int|
            0 <= i < significant(ts, from).len() ==> from <= #[trigger] significant(ts, from)[i]
                < ts.len(),
        significant(ts, from).len() <= ts.len(),
    decreases ts.len(),
{
    if ts.len() > from && ts.len() > 0 {
        lemma_significant_bounds(ts.drop_last(), from);
    }
}

impl Record {
    /// Indices of the tokens at or after `from` that are no separators.
    fn significant_indices(&self, from: usize) -> (r: Vec<usize>)
        ensures
            same_indices(r@, significant(self@.1, from as int)),
    {
        let ghost ts = self@.1;
        let mut r: Vec<usize> = Vec::new();
        let n = self.tokens.len();
        let mut i: usize = if from < n {
            from
        } else {
            n
        };
        assert(ts.subrange(0, i as int).len() <= from);
        while i < n
            invariant
                ts == self@.1,
                n == ts.len(),
                from <= i <= n || i == n,
                i >= from || i == n,
                same_indices(r@, significant(ts.subrange(0, i as int), from as int)),
            decreases n - i,
        {
            assert(ts.subrange(0, i + 1).drop_last() =~= ts.subrange(0, i as int));
            let k = self.tokens[i].token.kind;
            if !(k == TokenKind::Whitespace || k == TokenKind::Comma) {
                r.push(i);
            }
            i = i + 1;
        }
        assert(ts.subrange(0, n as int) =~= ts);
        r
    }

    /// The values of the last assignment of `key` in this record, as token indices:
    /// `None` where the record assigns no `key`; an error where the record is not a
    /// well-shaped group, with the index of the token at fault where there is one.
    pub fn parameter_values(&self, key: &str) -> (r: Result<Option<Vec<usize>>, Option<usize>>)
        ensures
            match (r, parameter_values_spec(self@.1, key@)) {
                (Ok(Some(v)), Ok(Some(w))) => same_indices(v@, w),
                (Ok(None), Ok(None)) => true,
                (Err(None), Err(None)) => true,
                (Err(Some(i)), Err(Some(j))) => i as int == j,
                _ => false,
            },
            r matches Err(Some(i)) ==> i < self.tokens@.len(),
            r is Ok ==> self.tokens@.len() >= 2,
            r matches Ok(Some(v)) ==> forall|j: int| 0 <= j < v@.len() ==> #[trigger] v@[j] < self.tokens@.len(),
    {
        let ghost ts = self@.1;
        let n = self.tokens.len();
        if n == 0 {
            return Err(None);
        }
        if self.tokens[0].token.kind != TokenKind::Ampersand {
            return Err(Some(0));
        }
        if n < 2 {
            return Err(None);
        }
        if self.tokens[1].token.kind != TokenKind::Identifier {
            return Err(Some(1));
        }
        assert(ts[0].1 == TokenKind::Ampersand && ts[1].1 == TokenKind::Identifier);
        let s = self.significant_indices(2);
        let ghost gs = significant(ts, 2);
        proof {
            lemma_significant_bounds(ts, 2);
        }
        let m = s.len();
        assert(parameter_values_spec(ts, key@) == match scan(ts, gs, key@, 0, None) {
            Ok(Some((a, b))) => Ok(Some(gs.subrange(a, b))),
            Ok(None) => Ok(None),
            Err(p) => Err(Some(gs[p])),
        });
        let mut p: usize = 0;
        let mut acc: Option<(usize, usize)> = None;
        loop
            invariant
                ts == self@.1,
                n == ts.len(),
                m == gs.len(),
                same_indices(s@, gs),
                forall|i: int| 0 <= i < gs.len() ==> 2 <= #[trigger] gs[i] < ts.len(),
                parameter_values_spec(ts, key@) == match scan(ts, gs, key@, 0, None) {
                    Ok(Some((a, b))) => Ok(Some(gs.subrange(a, b))),
                    Ok(None) => Ok(None),
                    Err(p) => Err(Some(gs[p])),
                },
                p <= m,
                acc matches Some((a, b)) ==> a <= b <= m,
                scan(ts, gs, key@, 0, None) == scan(ts, gs, key@, p as int, opt_range(acc)),
            ensures
                acc matches Some((a, b)) ==> a <= b <= m,
                scan(ts, gs, key@, 0, None) == Ok::<Option<(int, int)>, int>(opt_range(acc)),
            decreases m - p,
        {
            if p >= m || self.tokens[s[p]].token.kind == TokenKind::RightSlash {
                break;
            }
            let name = &self.tokens[s[p]].token;
            assert(ts[gs[p as int]].1 == name.kind && ts[gs[p as int]].2 == name.text@);
            if name.kind != TokenKind::Identifier {
                assert(scan(ts, gs, key@, p as int, opt_range(acc)) == Err::<Option<(int, int)>, int>(p as int));
                assert(gs[p as int] < ts.len());
                return Err(Some(s[p]));
            }
            let mut e = p + 1;
            while e < m && location_kind(self.tokens[s[e]].token.kind)
                invariant
                    ts == self@.1,
                    n == ts.len(),
                    m == gs.len(),
                    same_indices(s@, gs),
                    forall|i: int| 0 <= i < gs.len() ==> 2 <= #[trigger] gs[i] < ts.len(),
                    p < e <= m,
                    location_end(ts, gs, p + 1) == location_end(ts, gs, e as int),
                decreases m - e,
            {
                e = e + 1;
            }
            assert(location_end(ts, gs, p + 1) == e);
            if e >= m || self.tokens[s[e]].token.kind != TokenKind::Equals {
                assert(scan(ts, gs, key@, p as int, opt_range(acc)) == Err::<Option<(int, int)>, int>(p as int));
                assert(gs[p as int] < ts.len());
                return Err(Some(s[p]));
            }
            let mut j = e + 1;
            while j < m && self.tokens[s[j]].token.kind != TokenKind::RightSlash
                && self.tokens[s[j]].token.kind != TokenKind::Equals
                invariant
                    ts == self@.1,
                    n == ts.len(),
                    m == gs.len(),
                    same_indices(s@, gs),
                    forall|i: int| 0 <= i < gs.len() ==> 2 <= #[trigger] gs[i] < ts.len(),
                    e < j <= m,
                    value_end(ts, gs, e + 1) == value_end(ts, gs, j as int),
                decreases m - j,
            {
                j = j + 1;
            }
            assert(value_end(ts, gs, e + 1) == j);
            let vend = if j < m && self.tokens[s[j]].token.kind == TokenKind::Equals && j - 1 > e {
                j - 1
            } else {
                j
            };
            if name.kind == TokenKind::Identifier && crate::record::text_is(&name.text, key) {
                acc = Some((e + 1, vend));
            }
            if j < m && self.tokens[s[j]].token.kind == TokenKind::RightSlash {
                break;
            }
            p = vend;
        }
        match acc {
            Some((a, b)) => {
                let mut v: Vec<usize> = Vec::new();
                let mut k = a;
                while k < b
                    invariant
                        a <= k <= b <= m,
                        m == gs.len(),
                        same_indices(s@, gs),
                        same_indices(v@, gs.subrange(a as int, k as int)),
                        forall|i: int| 0 <= i < gs.len() ==> 2 <= #[trigger] gs[i] < ts.len(),
                        n == ts.len(),
                        forall|j: int| 0 <= j < v@.len() ==> #[trigger] v@[j] < n,
                    decreases b - k,
                {
                    assert(gs[k as int] < ts.len());
                    v.push(s[k]);
                    k = k + 1;
                }
                Ok(Some(v))
            },
            None => Ok(None),
        }
    }
}

} // verus!
