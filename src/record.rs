use crate::token::{
    lexemes_view, located_from_nml, nml_lex_view, view_text, Lexeme, LexView, LocatedLexeme,
    TokenKind,
};
use vstd::prelude::*;
use vstd::string::StringExecFns;

verus! {

/// One record of the file: a structured namelist group (`&NAME ... /`) or an opaque
/// stretch of text, held as the tokens it was read from.
#[derive(Clone, Debug, PartialEq, Eq)]
pub struct Record {
    pub structured: bool,
    pub tokens: Vec<LocatedLexeme>,
}

impl View for Record {
    type V = (bool, Seq<LexView>);

    open spec fn view(&self) -> (bool, Seq<LexView>) {
        (self.structured, lexemes_view(self.tokens@))
    }
}

/// The tokens of a record of the namelist crate.
pub open spec fn nml_tokens(n: namelist::Namelist) -> Seq<namelist::tokenizer::LocatedToken> {
    match n {
        namelist::Namelist::Actual { tokens } => tokens@,
        namelist::Namelist::Other { tokens } => tokens@,
    }
}

/// A record of the namelist crate, in this library's terms.
pub open spec fn nml_record_view(n: namelist::Namelist) -> (bool, Seq<LexView>) {
    (n is Actual, nml_tokens(n).map_values(|t: namelist::tokenizer::LocatedToken| nml_lex_view(t)))
}

pub open spec fn mesh_group() -> Seq<char> {
    seq!['M', 'E', 'S', 'H']
}

pub open spec fn tag_name() -> Seq<char> {
    seq!['M', 'P', 'I', '_', 'P', 'R', 'O', 'C', 'E', 'S', 'S']
}

/// A record defines a mesh when its second token is the identifier `MESH`.
pub open spec fn is_mesh_view(ts: Seq<LexView>) -> bool {
    ts.len() > 1 && ts[1].1 == TokenKind::Identifier && ts[1].2 == mesh_group()
}

/// Decimal digits of a number, most significant first, without leading zeros.
pub open spec fn decimal_digits(n: nat) -> Seq<char>
    decreases n,
{
    if n < 10 {
        seq![digit_char(n)]
    } else {
        decimal_digits(n / 10) + seq![digit_char(n % 10)]
    }
}

pub open spec fn digit_char(d: nat) -> char {
    ((d + '0' as nat) as u8) as char
}

pub open spec fn named(v: LexView, name: Seq<char>) -> bool {
    v.1 == TokenKind::Identifier && v.2 == name
}

/// Tokens that may stand between a parameter's name and its first value.
pub open spec fn is_filler(k: TokenKind) -> bool {
    k == TokenKind::Whitespace || k == TokenKind::NewLine || k == TokenKind::Comment || k
        == TokenKind::Equals
}

/// Index of the first identifier `name` at or after `i`, or the length.
pub open spec fn first_named(ts: Seq<LexView>, name: Seq<char>, i: int) -> int
    decreases ts.len() - i,
{
    if i >= ts.len() || i < 0 {
        ts.len() as int
    } else if named(ts[i], name) {
        i
    } else {
        first_named(ts, name, i + 1)
    }
}

/// Index of the first token at or after `i` that is no filler, or the length.
pub open spec fn filler_end(ts: Seq<LexView>, i: int) -> int
    decreases ts.len() - i,
{
    if i >= ts.len() || i < 0 {
        ts.len() as int
    } else if is_filler(ts[i].1) {
        filler_end(ts, i + 1)
    } else {
        i
    }
}

/// The tokens that the first assignment of `name` occupies: the name, the fillers after
/// it and one token more (cut at the end of the record).
pub open spec fn parameter_range(ts: Seq<LexView>, name: Seq<char>) -> Option<(int, int)> {
    let i = first_named(ts, name, 0);
    if i >= ts.len() {
        None
    } else {
        let q = filler_end(ts, i + 1);
        Some((i, if q < ts.len() { q + 1 } else { ts.len() as int }))
    }
}

pub open spec fn remove_range<A>(ts: Seq<A>, a: int, b: int) -> Seq<A> {
    ts.subrange(0, a) + ts.subrange(b, ts.len() as int)
}

/// The tokens with every assignment of `name` taken out, one after the other.
pub open spec fn strip_parameter(ts: Seq<LexView>, name: Seq<char>) -> Seq<LexView>
    decreases ts.len(),
{
    match parameter_range(ts, name) {
        Some((a, b)) => if 0 <= a < b <= ts.len() {
            strip_parameter(remove_range(ts, a, b), name)
        } else {
            ts
        },
        None => ts,
    }
}

/// A token added at the end of a record: before its closing slash where it has one.
pub open spec fn append_view(ts: Seq<LexView>, t: LexView) -> Seq<LexView> {
    if ts.len() > 0 && ts.last().1 == TokenKind::RightSlash {
        ts.drop_last().push(t).push(ts.last())
    } else {
        ts.push(t)
    }
}

/// The tokens of ` MPI_PROCESS=<bucket> `, which carry no place.
pub open spec fn tag_tokens(bucket: nat) -> Seq<LexView> {
    seq![
        (None, TokenKind::Whitespace, seq![' ']),
        (None, TokenKind::Identifier, tag_name()),
        (None, TokenKind::Equals, seq!['=']),
        (None, TokenKind::Number, decimal_digits(bucket)),
        (None, TokenKind::Whitespace, seq![' ']),
    ]
}

/// The tokens with the assignment to `bucket` added at the end.
pub open spec fn with_tag(ts: Seq<LexView>, bucket: nat) -> Seq<LexView> {
    let t = tag_tokens(bucket);
    append_view(append_view(append_view(append_view(append_view(ts, t[0]), t[1]), t[2]), t[3]), t[4])
}

/// A mesh record as the rewrite leaves it: every earlier tag taken out, the new one added.
pub open spec fn retagged(ts: Seq<LexView>, bucket: nat) -> Seq<LexView> {
    with_tag(strip_parameter(ts, tag_name()), bucket)
}

/// How many identifiers `name` the tokens hold.
pub open spec fn count_named(ts: Seq<LexView>, name: Seq<char>) -> nat
    decreases ts.len(),
{
    if ts.len() == 0 {
        0
    } else {
        count_named(ts.drop_last(), name) + if named(ts.last(), name) {
            1nat
        } else {
            0nat
        }
    }
}

proof fn lemma_filler_end_bound(ts: Seq<LexView>, i: int)
    requires
        0 <= i <= ts.len(),
    ensures
        i <= filler_end(ts, i) <= ts.len(),
    decreases ts.len() - i,
{
    if i < ts.len() && is_filler(ts[i].1) {
        lemma_filler_end_bound(ts, i + 1);
    }
}

proof fn lemma_first_named(ts: Seq<LexView>, name: Seq<char>, i: int)
    requires
        0 <= i <= ts.len(),
    ensures
        i <= first_named(ts, name, i) <= ts.len(),
        first_named(ts, name, i) == ts.len() ==> forall|j: int| i <= j < ts.len() ==> !named(#[trigger] ts[j], name),
    decreases ts.len() - i,
{
    if i < ts.len() && !named(ts[i], name) {
        lemma_first_named(ts, name, i + 1);
    }
}

proof fn lemma_count_none(ts: Seq<LexView>, name: Seq<char>)
    requires
        forall|j: int| 0 <= j < ts.len() ==> !named(#[trigger] ts[j], name),
    ensures
        count_named(ts, name) == 0,
    decreases ts.len(),
{
    if ts.len() > 0 {
        lemma_count_none(ts.drop_last(), name);
    }
}

proof fn lemma_strip_leaves_none(ts: Seq<LexView>, name: Seq<char>)
    ensures
        count_named(strip_parameter(ts, name), name) == 0,
    decreases ts.len(),
{
    lemma_first_named(ts, name, 0);
    let i = first_named(ts, name, 0);
    if i < ts.len() {
        lemma_filler_end_bound(ts, i + 1);
        let (a, b) = parameter_range(ts, name)->Some_0;
        lemma_strip_leaves_none(remove_range(ts, a, b), name);
    } else {
        lemma_count_none(ts, name);
    }
}

proof fn lemma_count_append(ts: Seq<LexView>, t: LexView, name: Seq<char>)
    ensures
        count_named(append_view(ts, t), name) == count_named(ts, name) + if named(t, name) {
            1nat
        } else {
            0nat
        },
{
    if ts.len() > 0 && ts.last().1 == TokenKind::RightSlash {
        let r = ts.drop_last().push(t).push(ts.last());
        assert(r.drop_last() =~= ts.drop_last().push(t));
        assert(ts.drop_last().push(t).drop_last() =~= ts.drop_last());
        assert(r.last() == ts.last());
        assert(count_named(r, name) == count_named(ts.drop_last().push(t), name) + if named(ts.last(), name) {
            1nat
        } else {
            0nat
        });
        assert(count_named(ts.drop_last().push(t), name) == count_named(ts.drop_last(), name) + if named(t, name) {
            1nat
        } else {
            0nat
        });
    } else {
        assert(ts.push(t).drop_last() =~= ts);
    }
}

/// A mesh record as the rewrite leaves it holds exactly one `MPI_PROCESS`, however many
/// it held before: a second run replaces the tag and adds none.
pub proof fn lemma_single_tag(ts: Seq<LexView>, bucket: nat)
    ensures
        count_named(retagged(ts, bucket), tag_name()) == 1,
{
    let s = strip_parameter(ts, tag_name());
    lemma_strip_leaves_none(ts, tag_name());
    let t = tag_tokens(bucket);
    let s1 = append_view(s, t[0]);
    let s2 = append_view(s1, t[1]);
    let s3 = append_view(s2, t[2]);
    let s4 = append_view(s3, t[3]);
    lemma_count_append(s, t[0], tag_name());
    lemma_count_append(s1, t[1], tag_name());
    lemma_count_append(s2, t[2], tag_name());
    lemma_count_append(s3, t[3], tag_name());
    lemma_count_append(s4, t[4], tag_name());
}

pub fn text_is(s: &String, lit: &str) -> (r: bool)
    ensures
        r == (s@ == lit@),
{
    let t = String::from_str(lit);
    *s == t
}

fn digit_text(d: usize) -> (r: String)
    requires
        d < 10,
    ensures
        r@ == seq![digit_char(d as nat)],
{
    proof {
        reveal_strlit("0");
        reveal_strlit("1");
        reveal_strlit("2");
        reveal_strlit("3");
        reveal_strlit("4");
        reveal_strlit("5");
        reveal_strlit("6");
        reveal_strlit("7");
        reveal_strlit("8");
        reveal_strlit("9");
    }
    let lit = if d == 0 {
        "0"
    } else if d == 1 {
        "1"
    } else if d == 2 {
        "2"
    } else if d == 3 {
        "3"
    } else if d == 4 {
        "4"
    } else if d == 5 {
        "5"
    } else if d == 6 {
        "6"
    } else if d == 7 {
        "7"
    } else if d == 8 {
        "8"
    } else {
        "9"
    };
    let r = String::from_str(lit);
    assert(r@ =~= seq![digit_char(d as nat)]);
    r
}

/// The decimal text of a number.
pub fn decimal_text(n: usize) -> (r: String)
    ensures
        r@ == decimal_digits(n as nat),
    decreases n,
{
    if n < 10 {
        digit_text(n)
    } else {
        let head = decimal_text(n / 10);
        let last = digit_text(n % 10);
        head.concat(last.as_str())
    }
}

impl Record {
    /// Takes a record of the namelist crate over into this library's form.
    pub fn from_nml(n: namelist::Namelist) -> (r: Record)
        ensures
            r@ == nml_record_view(n),
    {
        let ghost src = nml_tokens(n);
        let (structured, mut rest) = match n {
            namelist::Namelist::Actual { tokens } => (true, tokens),
            namelist::Namelist::Other { tokens } => (false, tokens),
        };
        let mut tokens: Vec<LocatedLexeme> = Vec::new();
        while rest.len() > 0
            invariant
                src.len() == tokens@.len() + rest@.len(),
                rest@ == src.subrange(tokens@.len() as int, src.len() as int),
                forall|i: int| 0 <= i < tokens@.len() ==> #[trigger] tokens@[i]@ == nml_lex_view(src[i]),
            decreases rest@.len(),
        {
            let t = rest.remove(0);
            tokens.push(located_from_nml(t));
        }
        let r = Record { structured, tokens };
        assert(r@.1 =~= nml_record_view(n).1);
        r
    }

    /// A copy of the record.
    pub fn duplicate(&self) -> (r: Record)
        ensures
            r@ == self@,
    {
        let mut tokens: Vec<LocatedLexeme> = Vec::new();
        let mut i: usize = 0;
        while i < self.tokens.len()
            invariant
                i <= self.tokens@.len(),
                tokens@.len() == i,
                forall|j: int| 0 <= j < i ==> (#[trigger] tokens@[j])@ == self.tokens@[j]@,
            decreases self.tokens@.len() - i,
        {
            let t = &self.tokens[i];
            tokens.push(
                LocatedLexeme {
                    span: t.span,
                    token: Lexeme { kind: t.token.kind, text: t.token.text.clone() },
                },
            );
            i = i + 1;
        }
        let r = Record { structured: self.structured, tokens };
        assert(r@.1 =~= self@.1);
        r
    }

    /// The record's text: its tokens' texts in order.
    pub fn to_text(&self) -> (r: String)
        ensures
            r@ == view_text(self@.1),
    {
        let mut out = String::new();
        let mut i: usize = 0;
        while i < self.tokens.len()
            invariant
                i <= self.tokens@.len(),
                out@ == view_text(self@.1.subrange(0, i as int)),
            decreases self.tokens@.len() - i,
        {
            assert(self@.1.subrange(0, i + 1).drop_last() =~= self@.1.subrange(0, i as int));
            out.append(self.tokens[i].token.text.as_str());
            i = i + 1;
        }
        assert(self@.1.subrange(0, i as int) =~= self@.1);
        out
    }

    /// Whether the record defines a mesh.
    pub fn is_mesh(&self) -> (r: bool)
        ensures
            r == is_mesh_view(self@.1),
    {
        proof {
            reveal_strlit("MESH");
        }
        if self.tokens.len() > 1 {
            let t = &self.tokens[1].token;
            let named = text_is(&t.text, "MESH");
            assert(named == (t.text@ == mesh_group())) by {
                assert("MESH"@ =~= mesh_group());
            }
            t.kind == TokenKind::Identifier && named
        } else {
            false
        }
    }

    /// Where the first assignment of `name` stands: the range of its tokens.
    pub fn find_parameter(&self, name: &str) -> (r: Option<(usize, usize)>)
        ensures
            r is None <==> parameter_range(self@.1, name@) is None,
            r matches Some((a, b)) ==> parameter_range(self@.1, name@) == Some((a as int, b as int))
                && a < b <= self.tokens@.len(),
    {
        let ghost ts = self@.1;
        let n = self.tokens.len();
        assert(n == ts.len());
        let mut i: usize = 0;
        while i < n
            invariant
                ts == self@.1,
                n == ts.len(),
                n == self.tokens@.len(),
                i <= n,
                first_named(ts, name@, 0) == first_named(ts, name@, i as int),
            ensures
                i <= n,
                first_named(ts, name@, 0) == first_named(ts, name@, i as int),
                i < n ==> named(ts[i as int], name@),
            decreases n - i,
        {
            let t = &self.tokens[i].token;
            if t.kind == TokenKind::Identifier && text_is(&t.text, name) {
                assert(named(ts[i as int], name@));
                break;
            }
            i = i + 1;
        }
        if i >= n {
            return None;
        }
        let mut q: usize = i + 1;
        while q < n
            invariant
                ts == self@.1,
                n == ts.len(),
                n == self.tokens@.len(),
                i < q <= n,
                filler_end(ts, i + 1) == filler_end(ts, q as int),
            ensures
                i < q <= n,
                filler_end(ts, i + 1) == filler_end(ts, q as int),
                q < n ==> !is_filler(ts[q as int].1),
            decreases n - q,
        {
            let k = self.tokens[q].token.kind;
            if !(k == TokenKind::Whitespace || k == TokenKind::NewLine || k == TokenKind::Comment
                || k == TokenKind::Equals) {
                break;
            }
            q = q + 1;
        }
        assert(first_named(ts, name@, 0) == i);
        assert(filler_end(ts, i + 1) == q);
        if q < n {
            Some((i, q + 1))
        } else {
            Some((i, n))
        }
    }

    /// Takes out the first assignment of `name`; false where there is none.
    pub fn remove_parameter(&mut self, name: &str) -> (r: bool)
        ensures
            final(self).structured == old(self).structured,
            r == parameter_range(old(self)@.1, name@) is Some,
            r ==> final(self).tokens@.len() < old(self).tokens@.len(),
            r ==> strip_parameter(final(self)@.1, name@) == strip_parameter(old(self)@.1, name@),
            !r ==> strip_parameter(old(self)@.1, name@) == old(self)@.1,
            final(self)@.1 == (match parameter_range(old(self)@.1, name@) {
                Some((a, b)) => remove_range(old(self)@.1, a, b),
                None => old(self)@.1,
            }),
    {
        match self.find_parameter(name) {
            Some((a, b)) => {
                let ghost old_tokens = self.tokens@;
                let mut k: usize = a;
                while k < b
                    invariant
                        self.structured == old(self).structured,
                        a <= k <= b <= old_tokens.len(),
                        self.tokens@ =~= old_tokens.subrange(0, a as int) + old_tokens.subrange(
                            k as int,
                            old_tokens.len() as int,
                        ),
                    decreases b - k,
                {
                    self.tokens.remove(a);
                    k = k + 1;
                }
                assert(self@.1 =~= remove_range(old(self)@.1, a as int, b as int));
                true
            },
            None => false,
        }
    }

    /// Takes out every assignment of `name`.
    pub fn remove_all_parameters(&mut self, name: &str)
        ensures
            final(self).structured == old(self).structured,
            final(self)@.1 == strip_parameter(old(self)@.1, name@),
    {
        loop
            invariant
                self.structured == old(self).structured,
                strip_parameter(self@.1, name@) == strip_parameter(old(self)@.1, name@),
            ensures
                self.structured == old(self).structured,
                self@.1 == strip_parameter(old(self)@.1, name@),
            decreases self.tokens@.len(),
        {
            if !self.remove_parameter(name) {
                break;
            }
        }
    }

    /// Adds a token at the end of the record, before its closing slash where it has one.
    pub fn append_token(&mut self, token: Lexeme)
        ensures
            final(self).structured == old(self).structured,
            final(self)@.1 == append_view(old(self)@.1, (None, token.kind, token.text@)),
    {
        let located = LocatedLexeme { span: None, token };
        let n = self.tokens.len();
        if n > 0 && self.tokens[n - 1].token.kind == TokenKind::RightSlash {
            self.tokens.insert(n - 1, located);
        } else {
            self.tokens.push(located);
        }
        assert(self@.1 =~= append_view(old(self)@.1, located@));
    }

    /// Replaces every `MPI_PROCESS` assignment of the record by one that names `bucket`.
    pub fn set_tag(&mut self, bucket: usize)
        ensures
            final(self).structured == old(self).structured,
            final(self)@.1 == retagged(old(self)@.1, bucket as nat),
    {
        proof {
            reveal_strlit("MPI_PROCESS");
            reveal_strlit(" ");
            reveal_strlit("=");
        }
        assert("MPI_PROCESS"@ =~= tag_name());
        assert(" "@ =~= seq![' ']);
        assert("="@ =~= seq!['=']);
        self.remove_all_parameters("MPI_PROCESS");
        self.append_token(Lexeme { kind: TokenKind::Whitespace, text: String::from_str(" ") });
        self.append_token(
            Lexeme { kind: TokenKind::Identifier, text: String::from_str("MPI_PROCESS") },
        );
        self.append_token(Lexeme { kind: TokenKind::Equals, text: String::from_str("=") });
        self.append_token(Lexeme { kind: TokenKind::Number, text: decimal_text(bucket) });
        self.append_token(Lexeme { kind: TokenKind::Whitespace, text: String::from_str(" ") });
    }
}

} // verus!
