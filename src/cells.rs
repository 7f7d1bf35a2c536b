use crate::params::{parameter_values_spec, same_indices};
use crate::record::Record;
use crate::token::{LexView, SourceSpan, TokenKind};
use vstd::prelude::*;
use vstd::string::{StrSliceExecFns, StringExecFns};

verus! {

/// What is wrong with a mesh's grid-dimension parameter.
#[derive(Clone, Copy, Debug, PartialEq, Eq, Structural)]
pub enum ParseProblem {
    MissingGridDimensions,
    InvalidGridToken,
    InvalidGridNumber,
    WrongGridArity,
    CellCountOverflow,
}

/// Why a file could not be read or rewritten, with the place at fault where there is one.
#[derive(Clone, Copy, Debug, PartialEq, Eq, Structural)]
pub enum FdsParseError {
    /// The text could not be cut into tokens.
    Tokenize(SourceSpan),
    /// A record read as a group does not have the group shape.
    NmlParse(Option<SourceSpan>),
    /// A required parameter is missing or holds what it may not.
    Parse(Option<SourceSpan>, ParseProblem),
    /// The number of processes asked for is zero.
    InvalidProcessCount,
}

impl FdsParseError {
    pub fn span(&self) -> (r: Option<SourceSpan>)
        ensures
            r == (match *self {
                FdsParseError::Tokenize(s) => Some(s),
                FdsParseError::NmlParse(s) => s,
                FdsParseError::Parse(s, _) => s,
                FdsParseError::InvalidProcessCount => None,
            }),
    {
        match *self {
            FdsParseError::Tokenize(s) => Some(s),
            FdsParseError::NmlParse(s) => s,
            FdsParseError::Parse(s, _) => s,
            FdsParseError::InvalidProcessCount => None,
        }
    }

    /// A one-line description of the error, for people.
    pub fn message(&self) -> (r: String)
        ensures
            r@ == message_of(*self),
    {
        let text = match *self {
            FdsParseError::Tokenize(_) => "invalid token",
            FdsParseError::NmlParse(_) => "malformed namelist group",
            FdsParseError::Parse(_, ParseProblem::MissingGridDimensions) => "no IJK parameter for mesh",
            FdsParseError::Parse(_, ParseProblem::InvalidGridToken) => "invalid token for IJK",
            FdsParseError::Parse(_, ParseProblem::InvalidGridNumber) => "invalid number for IJK",
            FdsParseError::Parse(_, ParseProblem::WrongGridArity) => "incorrect number of IJK parameters",
            FdsParseError::Parse(_, ParseProblem::CellCountOverflow) => "cell count does not fit in 64 bits",
            FdsParseError::InvalidProcessCount => "the number of MPI processes must be at least one",
        };
        String::from_str(text)
    }
}

/// The description of an error; the place is not part of it.
pub open spec fn message_of(e: FdsParseError) -> Seq<char> {
    match e {
        FdsParseError::Tokenize(_) => "invalid token"@,
        FdsParseError::NmlParse(_) => "malformed namelist group"@,
        FdsParseError::Parse(_, ParseProblem::MissingGridDimensions) => "no IJK parameter for mesh"@,
        FdsParseError::Parse(_, ParseProblem::InvalidGridToken) => "invalid token for IJK"@,
        FdsParseError::Parse(_, ParseProblem::InvalidGridNumber) => "invalid number for IJK"@,
        FdsParseError::Parse(_, ParseProblem::WrongGridArity) => "incorrect number of IJK parameters"@,
        FdsParseError::Parse(_, ParseProblem::CellCountOverflow) => "cell count does not fit in 64 bits"@,
        FdsParseError::InvalidProcessCount => "the number of MPI processes must be at least one"@,
    }
}

/// The name of the grid-dimension parameter.
pub open spec fn grid_key() -> Seq<char> {
    seq!['I', 'J', 'K']
}

pub open spec fn is_digit(c: char) -> bool {
    '0' <= c <= '9'
}

pub open spec fn digits_value(s: Seq<char>) -> nat
    decreases s.len(),
{
    if s.len() == 0 {
        0
    } else {
        digits_value(s.drop_last()) * 10 + (s.last() as int - '0' as int) as nat
    }
}

/// The digits of an unsigned decimal: the text less one leading `+`.
pub open spec fn unsigned_digits(s: Seq<char>) -> Seq<char> {
    if s.len() > 0 && s[0] == '+' {
        s.drop_first()
    } else {
        s
    }
}

/// The value of a 64-bit unsigned decimal, as std reads one: an optional `+`, then
/// one or more digits, the value in range.
pub open spec fn parse_unsigned(s: Seq<char>) -> Option<nat> {
    let d = unsigned_digits(s);
    if d.len() > 0 && (forall|i: int| 0 <= i < d.len() ==> is_digit(#[trigger] d[i])) && digits_value(d)
        <= u64::MAX {
        Some(digits_value(d))
    } else {
        None
    }
}

pub open spec fn unsigned_value(s: Seq<char>) -> nat {
    match parse_unsigned(s) {
        Some(v) => v,
        None => 0,
    }
}

/// The place of a group: that of its name.
pub open spec fn record_span(ts: Seq<LexView>) -> Option<SourceSpan> {
    if ts.len() > 1 {
        ts[1].0
    } else {
        None
    }
}

/// The first fault among the value tokens `vs[k..]`: a token that is no number, or a
/// number that is no 64-bit unsigned decimal.
pub open spec fn grid_value_fault(ts: Seq<LexView>, vs: Seq<int>, k: int) -> Option<FdsParseError>
    decreases vs.len() - k,
{
    if k < 0 || k >= vs.len() {
        None
    } else if ts[vs[k]].1 != TokenKind::Number {
        Some(FdsParseError::Parse(ts[vs[k]].0, ParseProblem::InvalidGridToken))
    } else if parse_unsigned(ts[vs[k]].2) is None {
        Some(FdsParseError::Parse(ts[vs[k]].0, ParseProblem::InvalidGridNumber))
    } else {
        grid_value_fault(ts, vs, k + 1)
    }
}

/// The cell count of a mesh record: the product of its three grid dimensions.
pub open spec fn mesh_cells(ts: Seq<LexView>) -> Result<u64, FdsParseError> {
    match parameter_values_spec(ts, grid_key()) {
        Err(None) => Err(FdsParseError::NmlParse(None)),
        Err(Some(i)) => Err(FdsParseError::NmlParse(ts[i].0)),
        Ok(None) => Err(FdsParseError::Parse(record_span(ts), ParseProblem::MissingGridDimensions)),
        Ok(Some(vs)) => match grid_value_fault(ts, vs, 0) {
            Some(e) => Err(e),
            None => if vs.len() != 3 {
                Err(FdsParseError::Parse(record_span(ts), ParseProblem::WrongGridArity))
            } else {
                let p = unsigned_value(ts[vs[0]].2) * unsigned_value(ts[vs[1]].2) * unsigned_value(
                    ts[vs[2]].2,
                );
                if p > u64::MAX {
                    Err(FdsParseError::Parse(record_span(ts), ParseProblem::CellCountOverflow))
                } else {
                    Ok(p as u64)
                }
            },
        },
    }
}

proof fn lemma_digits_prefix(d: Seq<char>, k: int)
    requires
        0 <= k <= d.len(),
        forall|i: int| 0 <= i < d.len() ==> is_digit(#[trigger] d[i]),
    ensures
        digits_value(d.take(k)) <= digits_value(d),
    decreases d.len(),
{
    if k < d.len() {
        lemma_digits_prefix(d.drop_last(), k);
        assert(d.drop_last().take(k) =~= d.take(k));
    } else {
        assert(d.take(k) =~= d);
    }
}

/// Reads a 64-bit unsigned decimal (an optional `+`, then digits).
pub fn parse_unsigned_text(s: &str) -> (r: Option<u64>)
    ensures
        r matches Some(v) ==> parse_unsigned(s@) == Some(v as nat),
        r is None ==> parse_unsigned(s@) is None,
{
    let n = s.unicode_len();
    let mut i: usize = 0;
    if n > 0 && s.get_char(0) == '+' {
        i = 1;
    }
    let start = i;
    let ghost d = unsigned_digits(s@);
    assert(d =~= s@.subrange(start as int, n as int));
    if i >= n {
        assert(d.len() == 0);
        assert(parse_unsigned(s@) is None);
        return None;
    }
    let mut v: u64 = 0;
    while i < n
        invariant
            n == s@.len(),
            start <= i <= n,
            d == s@.subrange(start as int, n as int),
            d == unsigned_digits(s@),
            v as nat == digits_value(d.take(i - start)),
            forall|j: int| 0 <= j < i - start ==> is_digit(#[trigger] d[j]),
        decreases n - i,
    {
        let c = s.get_char(i);
        assert(d[i - start] == c);
        if !('0' <= c && c <= '9') {
            assert(!is_digit(d[i - start]));
            return None;
        }
        let digit = (c as u32 - '0' as u32) as u64;
        assert(d.take(i - start + 1).drop_last() =~= d.take(i - start));
        if v > (u64::MAX - digit) / 10 {
            proof {
                if forall|j: int| 0 <= j < d.len() ==> is_digit(#[trigger] d[j]) {
                    lemma_digits_prefix(d, i - start + 1);
                    assert(digits_value(d.take(i - start + 1)) == v * 10 + digit);
                    assert(v * 10 + digit > u64::MAX) by (nonlinear_arith)
                        requires
                            v > (u64::MAX - digit) / 10,
                            digit <= 9,
                    ;
                }
            }
            return None;
        }
        assert(v * 10 + digit <= u64::MAX) by (nonlinear_arith)
            requires
                v <= (u64::MAX - digit) / 10,
                digit <= 9,
        ;
        v = v * 10 + digit;
        i = i + 1;
    }
    assert(d.take(i - start) =~= d);
    Some(v)
}

/// The cell count of a mesh record: the product of the three numbers of its `IJK`
/// parameter, or the fault that keeps it from having one.
pub fn count_mesh_cells(record: &Record) -> (r: Result<u64, FdsParseError>)
    ensures
        r == mesh_cells(record@.1),
{
    proof {
        reveal_strlit("IJK");
    }
    assert("IJK"@ =~= grid_key());
    let ghost ts = record@.1;
    let values = match record.parameter_values("IJK") {
        Err(None) => {
            return Err(FdsParseError::NmlParse(None));
        },
        Err(Some(i)) => {
            return Err(FdsParseError::NmlParse(record.tokens[i].span));
        },
        Ok(None) => {
            return Err(
                FdsParseError::Parse(record.tokens[1].span, ParseProblem::MissingGridDimensions),
            );
        },
        Ok(Some(v)) => v,
    };
    let ghost vs = match parameter_values_spec(ts, grid_key()) {
        Ok(Some(vs)) => vs,
        _ => Seq::empty(),
    };
    assert(ts.len() > 1);
    assert(parameter_values_spec(ts, grid_key()) == Ok::<Option<Seq<int>>, Option<int>>(Some(vs)));
    let mut dims: Vec<u64> = Vec::new();
    let mut k: usize = 0;
    while k < values.len()
        invariant
            ts == record@.1,
            parameter_values_spec(ts, grid_key()) == Ok::<Option<Seq<int>>, Option<int>>(Some(vs)),
            ts.len() > 1,
            same_indices(values@, vs),
            forall|j: int| 0 <= j < vs.len() ==> 0 <= #[trigger] vs[j] < ts.len(),
            k <= vs.len(),
            dims@.len() == k,
            grid_value_fault(ts, vs, 0) == grid_value_fault(ts, vs, k as int),
            forall|j: int| 0 <= j < k ==> #[trigger] dims@[j] as nat == unsigned_value(ts[vs[j]].2),
        decreases vs.len() - k,
    {
        let t = &record.tokens[values[k]];
        assert(ts[vs[k as int]] == t@);
        if t.token.kind != TokenKind::Number {
            assert(grid_value_fault(ts, vs, k as int) == Some(FdsParseError::Parse(t.span, ParseProblem::InvalidGridToken)));
            return Err(FdsParseError::Parse(t.span, ParseProblem::InvalidGridToken));
        }
        match parse_unsigned_text(t.token.text.as_str()) {
            Some(v) => {
                dims.push(v);
            },
            None => {
                return Err(FdsParseError::Parse(t.span, ParseProblem::InvalidGridNumber));
            },
        }
        k = k + 1;
    }
    if dims.len() != 3 {
        return Err(FdsParseError::Parse(record.tokens[1].span, ParseProblem::WrongGridArity));
    }
    let a = dims[0];
    let b = dims[1];
    let c = dims[2];
    if a == 0 || b == 0 || c == 0 {
        assert(a * b * c == 0) by (nonlinear_arith)
            requires
                a == 0 || b == 0 || c == 0,
        ;
        return Ok(0);
    }
    match a.checked_mul(b) {
        Some(ab) => match ab.checked_mul(c) {
            Some(abc) => Ok(abc),
            None => Err(FdsParseError::Parse(record.tokens[1].span, ParseProblem::CellCountOverflow)),
        },
        None => {
            assert(a * b * c > u64::MAX) by (nonlinear_arith)
                requires
                    a * b > u64::MAX,
                    c >= 1,
            ;
            Err(FdsParseError::Parse(record.tokens[1].span, ParseProblem::CellCountOverflow))
        },
    }
}

} // verus!
