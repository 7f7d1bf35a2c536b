use crate::cells::{count_mesh_cells, mesh_cells, FdsParseError, ParseProblem};
use crate::lpt::{
    allocate, as_ints, lemma_bucket_within_total, lemma_weights_of_sum, lpt_assignment,
    lpt_buckets, total_weight, upto, weight_sum, weights_of, AllocationOutcome,
    MpiProcessAllocation,
};
use crate::record::{is_mesh_view, nml_record_view, nml_tokens, retagged, Record};
use crate::token::{nml_lex_view, nml_tokens_text, span_from_nml, view_text, LexView};
use vstd::prelude::*;

verus! {

#[verifier::external_type_specification]
#[verifier::external_body]
pub struct ExTokenizerError(namelist::tokenizer::TokenizerError);

pub assume_specification[ namelist::tokenizer::TokenizerError::span ](
    e: &namelist::tokenizer::TokenizerError,
) -> namelist::tokenizer::Span;

/// Text of a list of records of the namelist crate.
pub open spec fn nml_file_text(ns: Seq<namelist::Namelist>) -> Seq<char>
    decreases ns.len(),
{
    if ns.len() == 0 {
        Seq::empty()
    } else {
        nml_file_text(ns.drop_last()) + nml_tokens_text(nml_tokens(ns.last()))
    }
}

/// The records that namelist::NmlParser reads from a text, `None` where it meets a
/// token error. They depend on the text alone.
pub uninterp spec fn nml_records(s: Seq<char>) -> Option<Seq<RecordView>>;

/// The tokens of all the records, in order.
pub open spec fn all_tokens(rs: Seq<RecordView>) -> Seq<LexView>
    decreases rs.len(),
{
    if rs.len() == 0 {
        Seq::empty()
    } else {
        all_tokens(rs.drop_last()) + rs.last().1
    }
}

/// Every token has a place, the first starts at byte 0, and each next one starts where the
/// one before it ends.
pub open spec fn spans_contiguous(ts: Seq<LexView>) -> bool {
    &&& forall|i: int| 0 <= i < ts.len() ==> (#[trigger] ts[i]).0 is Some
    &&& ts.len() > 0 ==> ts[0].0->Some_0.lo == 0
    &&& forall|i: int|
        0 <= i < ts.len() - 1 ==> (#[trigger] ts[i + 1]).0->Some_0.lo == ts[i].0->Some_0.lo
            + ts[i].0->Some_0.len
}

/// Relies on namelist::NmlParser, which cuts the text into tokens and groups them into
/// records: every character goes into exactly one token and no token is dropped, so the
/// token texts of the records, in order, spell the text again, and each token's span starts
/// at the byte where the one before it ends. Whether it succeeds, and the records it gives,
/// depend on the text alone.
#[verifier::external_body]
fn read_namelists(input: &str) -> (r: Result<Vec<namelist::Namelist>, namelist::tokenizer::TokenizerError>)
    ensures
        r matches Ok(ns) ==> nml_file_text(ns@) == input@,
        r is Ok <==> nml_records(input@) is Some,
        r matches Ok(ns) ==> nml_records(input@) == Some(
            ns@.map_values(|n: namelist::Namelist| nml_record_view(n)),
        ),
        r matches Ok(ns) ==> spans_contiguous(
            all_tokens(ns@.map_values(|n: namelist::Namelist| nml_record_view(n))),
        ),
{
    namelist::NmlParser::new(std::io::Cursor::new(input.to_string())).collect()
}

pub type RecordView = (bool, Seq<LexView>);

/// Text of a list of records: the texts of their tokens, in order.
pub open spec fn records_text(rs: Seq<RecordView>) -> Seq<char>
    decreases rs.len(),
{
    if rs.len() == 0 {
        Seq::empty()
    } else {
        records_text(rs.drop_last()) + view_text(rs.last().1)
    }
}

/// Positions, ascending, of the records that define meshes.
pub open spec fn mesh_positions(rs: Seq<RecordView>) -> Seq<int>
    decreases rs.len(),
{
    if rs.len() == 0 {
        Seq::empty()
    } else if is_mesh_view(rs.last().1) {
        mesh_positions(rs.drop_last()).push(rs.len() - 1)
    } else {
        mesh_positions(rs.drop_last())
    }
}

/// The cell counts of the meshes, in file order, or the fault of the first mesh that
/// has none.
pub open spec fn mesh_weights(rs: Seq<RecordView>) -> Result<Seq<u64>, FdsParseError>
    decreases rs.len(),
{
    if rs.len() == 0 {
        Ok(Seq::empty())
    } else {
        match mesh_weights(rs.drop_last()) {
            Err(e) => Err(e),
            Ok(w) => if is_mesh_view(rs.last().1) {
                match mesh_cells(rs.last().1) {
                    Ok(c) => Ok(w.push(c)),
                    Err(e) => Err(e),
                }
            } else {
                Ok(w)
            },
        }
    }
}

/// The cells of the whole model.
pub open spec fn total_cells(rs: Seq<RecordView>) -> Result<u64, FdsParseError> {
    match mesh_weights(rs) {
        Err(e) => Err(e),
        Ok(w) => if total_weight(w) > u64::MAX {
            Err(FdsParseError::Parse(None, ParseProblem::CellCountOverflow))
        } else {
            Ok(total_weight(w) as u64)
        },
    }
}

/// The items `0..k` given bucket `b`, in order.
pub open spec fn bucket_members(asg: Seq<int>, b: int, k: int) -> Seq<int>
    decreases k,
{
    if k <= 0 {
        Seq::empty()
    } else if asg[k - 1] == b {
        bucket_members(asg, b, k - 1).push(k - 1)
    } else {
        bucket_members(asg, b, k - 1)
    }
}

/// The items ordered by bucket, those of one bucket in their own order.
pub open spec fn group_order(asg: Seq<int>, nb: int) -> Seq<int>
    decreases nb,
{
    if nb <= 0 {
        Seq::empty()
    } else {
        group_order(asg, nb - 1) + bucket_members(asg, nb - 1, asg.len() as int)
    }
}

/// `new` is `old` with its meshes retagged and regrouped: the slots of the meshes, in
/// order, hold the meshes ordered by bucket (in file order within a bucket), each with its
/// bucket as its only `MPI_PROCESS`; every other record stays as and where it was.
pub open spec fn is_regrouped(old: Seq<RecordView>, new: Seq<RecordView>, asg: Seq<int>, n: nat) -> bool {
    let pos = mesh_positions(old);
    let g = group_order(asg, n as int);
    &&& new.len() == old.len()
    &&& forall|p: int| 0 <= p < old.len() && !is_mesh_view(old[p].1) ==> new[p] == old[p]
    &&& forall|i: int|
        0 <= i < pos.len() ==> new[#[trigger] pos[i]] == (
            old[pos[g[i]]].0,
            retagged(old[pos[g[i]]].1, asg[g[i]] as nat),
        )
}

/// Each process's total and mesh cell counts, as the allocation rule gives them.
pub open spec fn is_outcome_of(o: Seq<MpiProcessAllocation>, w: Seq<u64>, n: nat) -> bool {
    &&& o.len() == n
    &&& forall|b: int|
        0 <= b < n ==> (#[trigger] o[b]).total == weight_sum(w, lpt_buckets(w, n)[b]) && o[b].meshes@
            == weights_of(w, lpt_buckets(w, n)[b])
}

proof fn lemma_nml_tokens_text(ts: Seq<namelist::tokenizer::LocatedToken>)
    ensures
        view_text(ts.map_values(|t: namelist::tokenizer::LocatedToken| nml_lex_view(t)))
            == nml_tokens_text(ts),
    decreases ts.len(),
{
    if ts.len() > 0 {
        lemma_nml_tokens_text(ts.drop_last());
        assert(ts.map_values(|t: namelist::tokenizer::LocatedToken| nml_lex_view(t)).drop_last()
            =~= ts.drop_last().map_values(|t: namelist::tokenizer::LocatedToken| nml_lex_view(t)));
    }
}

proof fn lemma_mesh_positions(rs: Seq<RecordView>, p: int)
    requires
        0 <= p <= rs.len(),
    ensures
        mesh_positions(rs.take(p)) == mesh_positions(rs).take(mesh_positions(rs.take(p)).len() as int),
        mesh_positions(rs.take(p)).len() <= mesh_positions(rs).len(),
        forall|i: int|
            0 <= i < mesh_positions(rs).len() ==> 0 <= #[trigger] mesh_positions(rs)[i] < rs.len()
                && is_mesh_view(rs[mesh_positions(rs)[i]].1),
        forall|i: int|
            0 <= i < mesh_positions(rs.take(p)).len() ==> #[trigger] mesh_positions(rs.take(p))[i] < p,
    decreases rs.len(),
{
    if rs.len() == 0 {
        assert(rs.take(p) =~= rs);
    } else if p == rs.len() {
        assert(rs.take(p) =~= rs);
        lemma_mesh_positions(rs.drop_last(), rs.len() - 1);
        assert(rs.drop_last().take(rs.len() - 1) =~= rs.drop_last());
        assert(mesh_positions(rs).take(mesh_positions(rs).len() as int) =~= mesh_positions(rs));
    } else {
        lemma_mesh_positions(rs.drop_last(), p);
        assert(rs.drop_last().take(p) =~= rs.take(p));
        lemma_mesh_positions(rs.drop_last(), rs.len() - 1);
        assert(rs.drop_last().take(rs.len() - 1) =~= rs.drop_last());
        let a = mesh_positions(rs.drop_last());
        let k = mesh_positions(rs.take(p)).len() as int;
        if is_mesh_view(rs.last().1) {
            assert(a.push(rs.len() - 1).take(k) =~= a.take(k));
        }
    }
}

proof fn lemma_bucket_members(asg: Seq<int>, b: int, k: int)
    requires
        0 <= k <= asg.len(),
    ensures
        forall|i: int|
            0 <= i < bucket_members(asg, b, k).len() ==> 0 <= #[trigger] bucket_members(asg, b, k)[i]
                < k,
    decreases k,
{
    if k > 0 {
        lemma_bucket_members(asg, b, k - 1);
        let m = bucket_members(asg, b, k - 1);
        if asg[k - 1] == b {
            assert forall|i: int| 0 <= i < m.push(k - 1).len() implies 0 <= #[trigger] m.push(k - 1)[i] < k by {
                if i < m.len() {
                    assert(m.push(k - 1)[i] == m[i]);
                }
            }
        }
    }
}

pub open spec fn count_below(asg: Seq<int>, nb: int, k: int) -> nat
    decreases k,
{
    if k <= 0 {
        0
    } else {
        count_below(asg, nb, k - 1) + if 0 <= asg[k - 1] < nb {
            1nat
        } else {
            0nat
        }
    }
}

proof fn lemma_count_split(asg: Seq<int>, nb: int, k: int)
    requires
        0 <= nb,
        0 <= k <= asg.len(),
    ensures
        count_below(asg, nb + 1, k) == count_below(asg, nb, k) + bucket_members(asg, nb, k).len(),
    decreases k,
{
    if k > 0 {
        lemma_count_split(asg, nb, k - 1);
    }
}

proof fn lemma_count_none(asg: Seq<int>, k: int)
    ensures
        count_below(asg, 0, k) == 0,
    decreases k,
{
    if k > 0 {
        lemma_count_none(asg, k - 1);
    }
}

proof fn lemma_count_all(asg: Seq<int>, n: int, k: int)
    requires
        0 <= k <= asg.len(),
        forall|j: int| 0 <= j < asg.len() ==> 0 <= #[trigger] asg[j] < n,
    ensures
        count_below(asg, n, k) == k,
    decreases k,
{
    if k > 0 {
        lemma_count_all(asg, n, k - 1);
    }
}

proof fn lemma_group_order(asg: Seq<int>, nb: int)
    requires
        0 <= nb,
    ensures
        group_order(asg, nb).len() == count_below(asg, nb, asg.len() as int),
        forall|i: int|
            0 <= i < group_order(asg, nb).len() ==> 0 <= #[trigger] group_order(asg, nb)[i]
                < asg.len(),
    decreases nb,
{
    if nb == 0 {
        lemma_count_none(asg, asg.len() as int);
    } else {
        lemma_group_order(asg, nb - 1);
        lemma_count_split(asg, nb - 1, asg.len() as int);
        lemma_bucket_members(asg, nb - 1, asg.len() as int);
        let a = group_order(asg, nb - 1);
        let m = bucket_members(asg, nb - 1, asg.len() as int);
        assert(group_order(asg, nb) == a + m);
        assert(count_below(asg, nb - 1 + 1, asg.len() as int) == count_below(asg, nb - 1, asg.len() as int) + m.len());
        assert(nb - 1 + 1 == nb);
        assert forall|i: int| 0 <= i < group_order(asg, nb).len() implies 0
            <= #[trigger] group_order(asg, nb)[i] < asg.len() by {
            if i >= a.len() {
                assert(group_order(asg, nb)[i] == m[i - a.len()]);
            }
        }
    }
}

/// The meshes ordered by bucket, those of one bucket in file order.
fn grouped(asg: &Vec<usize>, n: usize) -> (r: Vec<usize>)
    ensures
        as_ints(r@) == group_order(as_ints(asg@), n as int),
{
    let ghost ga = as_ints(asg@);
    let mut r: Vec<usize> = Vec::new();
    let mut b: usize = 0;
    while b < n
        invariant
            b <= n,
            ga == as_ints(asg@),
            as_ints(r@) == group_order(ga, b as int),
        decreases n - b,
    {
        let ghost before = r@;
        let mut k: usize = 0;
        while k < asg.len()
            invariant
                b < n,
                k <= asg@.len(),
                ga == as_ints(asg@),
                as_ints(r@) == group_order(ga, b as int) + bucket_members(ga, b as int, k as int),
            decreases asg@.len() - k,
        {
            if asg[k] == b {
                let ghost prev = as_ints(r@);
                r.push(k);
                assert(as_ints(r@) =~= prev.push(k as int));
                assert(bucket_members(ga, b as int, k + 1) == bucket_members(ga, b as int, k as int).push(k as int));
                assert(as_ints(r@) =~= group_order(ga, b as int) + bucket_members(ga, b as int, k + 1));
            } else {
                assert(bucket_members(ga, b as int, k + 1) == bucket_members(ga, b as int, k as int));
            }
            k = k + 1;
        }
        b = b + 1;
    }
    r
}

/// A model file: its records in order.
#[derive(Clone, Debug, PartialEq, Eq)]
pub struct FdsFile {
    pub nmls: Vec<Record>,
}

impl View for FdsFile {
    type V = Seq<RecordView>;

    open spec fn view(&self) -> Seq<RecordView> {
        self.nmls@.map_values(|r: Record| r@)
    }
}

impl FdsFile {
    pub fn new(nmls: Vec<Record>) -> (r: Self)
        ensures
            r.nmls@ == nmls@,
    {
        FdsFile { nmls }
    }

    /// Reads a model file. The records' tokens spell the text again; the only error is a
    /// text that cannot be cut into tokens.
    pub fn parse(input: &str) -> (r: Result<Self, FdsParseError>)
        ensures
            r is Ok <==> nml_records(input@) is Some,
            r matches Ok(f) ==> nml_records(input@) == Some(f@) && records_text(f@) == input@,
            r matches Ok(f) ==> spans_contiguous(all_tokens(f@)),
            r matches Err(e) ==> e is Tokenize,
    {
        match read_namelists(input) {
            Err(e) => Err(FdsParseError::Tokenize(span_from_nml(e.span()))),
            Ok(ns) => {
                let ghost src = ns@;
                let mut rest = ns;
                let mut nmls: Vec<Record> = Vec::new();
                while rest.len() > 0
                    invariant
                        src.len() == nmls@.len() + rest@.len(),
                        rest@ == src.subrange(nmls@.len() as int, src.len() as int),
                        nml_file_text(src.take(nmls@.len() as int)) == records_text(
                            nmls@.map_values(|r: Record| r@),
                        ),
                        nmls@.map_values(|r: Record| r@) == src.take(nmls@.len() as int).map_values(
                            |n: namelist::Namelist| nml_record_view(n),
                        ),
                    decreases rest@.len(),
                {
                    let ghost k = nmls@.len() as int;
                    let ghost prev = nmls@.map_values(|r: Record| r@);
                    let n = rest.remove(0);
                    assert(n == src[k]);
                    let rec = Record::from_nml(n);
                    proof {
                        lemma_nml_tokens_text(nml_tokens(n));
                    }
                    nmls.push(rec);
                    assert(src.take(k + 1).drop_last() =~= src.take(k));
                    assert(src.take(k + 1).last() == n);
                    assert(nmls@.map_values(|r: Record| r@) =~= prev.push(rec@));
                    assert(prev.push(rec@).drop_last() =~= prev);
                    assert(src.take(k + 1).map_values(|n: namelist::Namelist| nml_record_view(n))
                        =~= src.take(k).map_values(|n: namelist::Namelist| nml_record_view(n)).push(
                        nml_record_view(n),
                    ));
                }
                assert(src.take(src.len() as int) =~= src);
                Ok(FdsFile { nmls })
            },
        }
    }

    /// The file's text: the texts of its records, in order.
    pub fn to_text(&self) -> (r: String)
        ensures
            r@ == records_text(self@),
    {
        let mut out = String::new();
        let mut i: usize = 0;
        while i < self.nmls.len()
            invariant
                i <= self.nmls@.len(),
                out@ == records_text(self@.take(i as int)),
            decreases self.nmls@.len() - i,
        {
            assert(self@.take(i + 1).drop_last() =~= self@.take(i as int));
            let t = self.nmls[i].to_text();
            out.append(t.as_str());
            i = i + 1;
        }
        assert(self@.take(i as int) =~= self@);
        out
    }

    /// Positions and cell counts of the meshes, in file order.
    fn mesh_entries(&self) -> (r: Result<(Vec<usize>, Vec<u64>), FdsParseError>)
        ensures
            match (r, mesh_weights(self@)) {
                (Ok((p, w)), Ok(ws)) => w@ == ws && as_ints(p@) == mesh_positions(self@) && p@.len()
                    == w@.len(),
                (Err(e), Err(f)) => e == f,
                _ => false,
            },
    {
        let mut pos: Vec<usize> = Vec::new();
        let mut w: Vec<u64> = Vec::new();
        let mut i: usize = 0;
        while i < self.nmls.len()
            invariant
                i <= self.nmls@.len(),
                mesh_weights(self@.take(i as int)) == Ok::<Seq<u64>, FdsParseError>(w@),
                as_ints(pos@) == mesh_positions(self@.take(i as int)),
                pos@.len() == w@.len(),
            decreases self.nmls@.len() - i,
        {
            assert(self@.take(i + 1).drop_last() =~= self@.take(i as int));
            let rec = &self.nmls[i];
            assert(self@.take(i + 1).last() == rec@);
            if rec.is_mesh() {
                match count_mesh_cells(rec) {
                    Ok(c) => {
                        w.push(c);
                        let ghost prev = as_ints(pos@);
                        pos.push(i);
                        assert(as_ints(pos@) =~= prev.push(i as int));
                    },
                    Err(e) => {
                        proof {
                            lemma_weights_err_prefix(self@, i + 1);
                        }
                        return Err(e);
                    },
                }
            }
            i = i + 1;
        }
        assert(self@.take(i as int) =~= self@);
        Ok((pos, w))
    }

    /// The number of cells in the model: the sum of the meshes' cell counts.
    pub fn n_cells(&self) -> (r: Result<u64, FdsParseError>)
        ensures
            r == total_cells(self@),
    {
        let w = match self.mesh_entries() {
            Ok((_, w)) => w,
            Err(e) => {
                return Err(e);
            },
        };
        match checked_total(&w) {
            Some(total) => Ok(total),
            None => Err(FdsParseError::Parse(None, ParseProblem::CellCountOverflow)),
        }
    }

    /// Shares the meshes among `n_mpi` processes by the longest-processing-time-first
    /// rule, then rewrites the file: each mesh gets its process as its one `MPI_PROCESS`,
    /// and the meshes are regrouped by process in the slots that meshes held. Nothing is
    /// changed when an error is returned.
    pub fn allocate_mpi_processes(&mut self, n_mpi: u32) -> (r: Result<AllocationOutcome, FdsParseError>)
        ensures
            n_mpi == 0 ==> r == Err::<AllocationOutcome, FdsParseError>(
                FdsParseError::InvalidProcessCount,
            ),
            n_mpi > 0 ==> match mesh_weights(old(self)@) {
                Err(e) => r == Err::<AllocationOutcome, FdsParseError>(e),
                Ok(w) => if total_weight(w) > u64::MAX {
                    r == Err::<AllocationOutcome, FdsParseError>(
                        FdsParseError::Parse(None, ParseProblem::CellCountOverflow),
                    )
                } else {
                    &&& r is Ok
                    &&& is_outcome_of(r->Ok_0.processes@, w, n_mpi as nat)
                    &&& is_regrouped(old(self)@, final(self)@, lpt_assignment(w, n_mpi as nat), n_mpi as nat)
                },
            },
            r is Err ==> final(self)@ == old(self)@,
    {
        if n_mpi == 0 {
            return Err(FdsParseError::InvalidProcessCount);
        }
        let n = n_mpi as usize;
        let (pos, w) = match self.mesh_entries() {
            Ok(pw) => pw,
            Err(e) => {
                return Err(e);
            },
        };
        if checked_total(&w).is_none() {
            return Err(FdsParseError::Parse(None, ParseProblem::CellCountOverflow));
        }
        let (buckets, asg) = allocate(&w, n);
        let ghost gb = lpt_buckets(w@, n as nat);
        let mut outcome = AllocationOutcome::new();
        let mut b: usize = 0;
        while b < n
            invariant
                b <= n,
                buckets@.len() == n,
                forall|c: int| 0 <= c < n ==> as_ints(#[trigger] buckets@[c]@) == gb[c],
                gb == lpt_buckets(w@, n as nat),
                n >= 1,
                total_weight(w@) <= u64::MAX,
                forall|c: int, j: int| 0 <= c < n && 0 <= j < buckets@[c]@.len() ==> #[trigger] buckets@[c]@[j] < w@.len(),
                outcome.processes@.len() == b,
                forall|c: int|
                    0 <= c < b ==> (#[trigger] outcome.processes@[c]).total == weight_sum(w@, gb[c])
                        && outcome.processes@[c].meshes@ == weights_of(w@, gb[c]),
            decreases n - b,
        {
            let members = &buckets[b];
            let mut cells: Vec<u64> = Vec::new();
            let mut k: usize = 0;
            while k < members.len()
                invariant
                    b < n,
                    as_ints(members@) == gb[b as int],
                    forall|j: int| 0 <= j < members@.len() ==> #[trigger] members@[j] < w@.len(),
                    k <= members@.len(),
                    cells@ == weights_of(w@, gb[b as int]).take(k as int),
                decreases members@.len() - k,
            {
                assert(members@[k as int] as int == gb[b as int][k as int]);
                cells.push(w[members[k]]);
                assert(cells@ =~= weights_of(w@, gb[b as int]).take(k + 1));
                k = k + 1;
            }
            assert(cells@ =~= weights_of(w@, gb[b as int]));
            proof {
                lemma_weights_of_sum(w@, gb[b as int]);
                lemma_bucket_within_total(w@, n as nat, b as int);
            }
            outcome.processes.push(MpiProcessAllocation::new(cells));
            b = b + 1;
        }
        let g = grouped(&asg, n);
        let ghost old_view = self@;
        let ghost gpos = mesh_positions(old_view);
        let ghost ga = as_ints(asg@);
        let ghost gg = group_order(ga, n as int);
        proof {
            lemma_group_order(ga, n as int);
            assert forall|j: int| 0 <= j < ga.len() implies 0 <= #[trigger] ga[j] < n by {
                assert(ga[j] == asg@[j] as int);
            }
            lemma_count_all(ga, n as int, ga.len() as int);
            lemma_mesh_positions(old_view, old_view.len() as int);
        }
        let mut out: Vec<Record> = Vec::new();
        let mut seen: usize = 0;
        let mut p: usize = 0;
        while p < self.nmls.len()
            invariant
                old_view == self@,
                gpos == mesh_positions(old_view),
                as_ints(pos@) == gpos,
                pos@.len() == w@.len(),
                asg@.len() == w@.len(),
                ga == as_ints(asg@),
                gg == group_order(ga, n as int),
                as_ints(g@) == gg,
                gg.len() == ga.len(),
                forall|i: int| 0 <= i < gg.len() ==> 0 <= #[trigger] gg[i] < ga.len(),
                forall|i: int|
                    0 <= i < gpos.len() ==> 0 <= #[trigger] gpos[i] < old_view.len() && is_mesh_view(old_view[gpos[i]].1),
                p <= old_view.len(),
                out@.len() == p,
                seen as int == mesh_positions(old_view.take(p as int)).len(),
                seen <= gpos.len(),
                forall|i: int| 0 <= i < seen ==> #[trigger] gpos[i] < p,
                forall|q: int|
                    0 <= q < p && !is_mesh_view(old_view[q].1) ==> (#[trigger] out@[q])@ == old_view[q],
                forall|i: int|
                    0 <= i < seen ==> (#[trigger] out@[gpos[i]])@ == (
                        old_view[gpos[gg[i]]].0,
                        retagged(old_view[gpos[gg[i]]].1, ga[gg[i]] as nat),
                    ),
            decreases old_view.len() - p,
        {
            proof {
                lemma_mesh_positions(old_view, p as int);
                lemma_mesh_positions(old_view, p + 1);
                assert(old_view.take(p + 1).drop_last() =~= old_view.take(p as int));
                assert(old_view.take(p + 1).last() == old_view[p as int]);
                let before = mesh_positions(old_view.take(p as int));
                if is_mesh_view(old_view[p as int].1) {
                    assert(mesh_positions(old_view.take(p + 1)) == before.push(p as int));
                    assert(gpos.take(seen + 1) == before.push(p as int));
                    assert(gpos[seen as int] == gpos.take(seen + 1)[seen as int]);
                } else {
                    assert(mesh_positions(old_view.take(p + 1)) == before);
                }
            }
            if seen < pos.len() && pos[seen] == p {
                assert(g@[seen as int] as int == gg[seen as int]);
                assert(gg[seen as int] < pos@.len());
                let src = pos[g[seen]];
                assert(src as int == gpos[gg[seen as int]]);
                let mut rec = self.nmls[src].duplicate();
                rec.set_tag(asg[g[seen]]);
                out.push(rec);
                seen = seen + 1;
            } else {
                assert(!is_mesh_view(old_view[p as int].1));
                out.push(self.nmls[p].duplicate());
            }
            p = p + 1;
        }
        proof {
            assert(old_view.take(p as int) =~= old_view);
        }
        self.nmls = out;
        assert(ga == lpt_assignment(w@, n as nat));
        Ok(outcome)
    }
}

proof fn lemma_weights_err_prefix(rs: Seq<RecordView>, k: int)
    requires
        0 <= k <= rs.len(),
        mesh_weights(rs.take(k)) is Err,
    ensures
        mesh_weights(rs) == mesh_weights(rs.take(k)),
    decreases rs.len() - k,
{
    if k < rs.len() {
        assert(rs.take(k + 1).drop_last() =~= rs.take(k));
        lemma_weights_err_prefix(rs, k + 1);
    } else {
        assert(rs.take(k) =~= rs);
    }
}

/// The sum of the weights, `None` where it does not fit in a machine word.
fn checked_total(w: &Vec<u64>) -> (r: Option<u64>)
    ensures
        r is None <==> total_weight(w@) > u64::MAX,
        r matches Some(t) ==> t == total_weight(w@),
{
    let mut total: u64 = 0;
    let mut i: usize = 0;
    while i < w.len()
        invariant
            i <= w@.len(),
            total == weight_sum(w@, upto(i as int)),
        decreases w@.len() - i,
    {
        assert(upto(i + 1).drop_last() =~= upto(i as int));
        if total > u64::MAX - w[i] {
            proof {
                lemma_weight_sum_upto_mono(w@, i + 1, w@.len() as int);
                assert(upto(i + 1).last() == i as int);
                assert(weight_sum(w@, upto(i + 1)) == total + w@[i as int]);
            }
            return None;
        }
        total = total + w[i];
        i = i + 1;
    }
    assert(upto(w@.len() as int) =~= upto(i as int));
    Some(total)
}

proof fn lemma_weight_sum_upto_mono(w: Seq<u64>, i: int, j: int)
    requires
        0 <= i <= j <= w.len(),
    ensures
        weight_sum(w, upto(i)) <= weight_sum(w, upto(j)),
    decreases j - i,
{
    if i < j {
        lemma_weight_sum_upto_mono(w, i, j - 1);
        assert(upto(j).drop_last() =~= upto(j - 1));
    }
}

/// Reading a text and writing the records back out gives the text unchanged.
pub proof fn lemma_round_trip(input: Seq<char>, parsed: Seq<RecordView>, written: Seq<char>)
    requires
        records_text(parsed) == input,
        written == records_text(parsed),
    ensures
        written == input,
{
}

/// Records that define no mesh keep their place and their tokens through the rewrite.
pub proof fn lemma_non_mesh_kept(old: Seq<RecordView>, new: Seq<RecordView>, asg: Seq<int>, n: nat, p: int)
    requires
        is_regrouped(old, new, asg, n),
        0 <= p < old.len(),
        !is_mesh_view(old[p].1),
    ensures
        new[p] == old[p],
{
}

} // verus!
