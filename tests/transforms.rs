use fdspp::cells::{count_mesh_cells, parse_unsigned_text, FdsParseError, ParseProblem};
use fdspp::fds::FdsFile;
use fdspp::lpt::{allocate, AllocationOutcome, MpiProcessAllocation};
use fdspp::record::{decimal_text, Record};
use fdspp::token::{Lexeme, LocatedLexeme, SourceSpan, TokenKind};
use fdspp::{apply_transforms, Transforms};

const THREE_MESHES: &str = "&HEAD CHID='x' /\n&MESH IJK=10,10,10, XB=0,1,0,1,0,1 /\n&MESH IJK=5,5,5 /\n&OBST XB=0,1,0,1,0,1 /\n&MESH IJK=20,20,20 /\n&TAIL /\n";

fn tag_count(text: &str) -> usize {
    text.matches("MPI_PROCESS").count()
}

fn variation(totals: &[u64]) -> f64 {
    let min = *totals.iter().min().unwrap() as f64;
    let max = *totals.iter().max().unwrap() as f64;
    ((max - min) / 2.0) / ((max + min) / 2.0) * 100.0
}

#[test]
fn round_trip_without_transforms() {
    let inputs = [
        "",
        "just a comment line\n",
        THREE_MESHES,
        "&MESH IJK=1,2,3 /   trailing text\n\n&MISC  A = 'quoted / text', B=.TRUE. /\n",
        "&DUMP DT_DEVC(1:3)=0.5, 1e3 ! comment\n /\n",
        "&MESH IJK=1,2,3",
    ];
    for input in inputs {
        let (out, outcome) = apply_transforms(&Transforms { n_mpi: None }, input).expect("parse");
        assert_eq!(out, input);
        assert!(outcome.mesh_allocation.is_none());
    }
}

#[test]
fn three_meshes_two_processes() {
    let (out, outcome) = apply_transforms(&Transforms { n_mpi: Some(2) }, THREE_MESHES).unwrap();
    let alloc = outcome.mesh_allocation.expect("allocation");
    assert_eq!(
        alloc.processes,
        vec![
            MpiProcessAllocation { total: 8000, meshes: vec![8000] },
            MpiProcessAllocation { total: 1125, meshes: vec![1000, 125] },
        ]
    );
    let totals: Vec<u64> = alloc.processes.iter().map(|p| p.total).collect();
    let v = variation(&totals);
    assert!((v - 75.34).abs() < 0.01, "variation {v}");
    assert_eq!(
        out,
        "&HEAD CHID='x' /\n&MESH IJK=20,20,20  MPI_PROCESS=0 /\n&MESH IJK=10,10,10, XB=0,1,0,1,0,1  MPI_PROCESS=1 /\n&OBST XB=0,1,0,1,0,1 /\n&MESH IJK=5,5,5  MPI_PROCESS=1 /\n&TAIL /\n"
    );
}

#[test]
fn zero_processes_is_rejected() {
    let r = apply_transforms(&Transforms { n_mpi: Some(0) }, THREE_MESHES);
    assert_eq!(r.unwrap_err(), FdsParseError::InvalidProcessCount);
    let mut file = FdsFile::parse(THREE_MESHES).unwrap();
    let before = file.clone();
    assert_eq!(file.allocate_mpi_processes(0).unwrap_err(), FdsParseError::InvalidProcessCount);
    assert_eq!(file, before);
}

#[test]
fn mesh_without_grid_dimensions_fails() {
    let input = "&HEAD /\n&MESH XB=0,1,0,1,0,1 /\n";
    let r = apply_transforms(&Transforms { n_mpi: Some(2) }, input);
    let err = r.unwrap_err();
    assert_eq!(
        err,
        FdsParseError::Parse(
            Some(SourceSpan { lo: 9, len: 4, line: 1, column: 1 }),
            ParseProblem::MissingGridDimensions
        )
    );
    assert_eq!(err.span(), Some(SourceSpan { lo: 9, len: 4, line: 1, column: 1 }));
    assert_eq!(err.message(), "no IJK parameter for mesh");
}

#[test]
fn grid_dimension_faults() {
    let bad_token = FdsFile::parse("&MESH IJK=1,'a',3 /").unwrap();
    assert!(matches!(
        count_mesh_cells(&bad_token.nmls[0]),
        Err(FdsParseError::Parse(Some(_), ParseProblem::InvalidGridToken))
    ));
    let bad_number = FdsFile::parse("&MESH IJK=1,2.5,3 /").unwrap();
    assert!(matches!(
        count_mesh_cells(&bad_number.nmls[0]),
        Err(FdsParseError::Parse(Some(_), ParseProblem::InvalidGridNumber))
    ));
    let two = FdsFile::parse("&MESH IJK=1,2 /").unwrap();
    assert!(matches!(
        count_mesh_cells(&two.nmls[0]),
        Err(FdsParseError::Parse(Some(_), ParseProblem::WrongGridArity))
    ));
    let huge = FdsFile::parse("&MESH IJK=100000000,100000000,100000000 /").unwrap();
    assert!(matches!(
        count_mesh_cells(&huge.nmls[0]),
        Err(FdsParseError::Parse(Some(_), ParseProblem::CellCountOverflow))
    ));
    let zero = FdsFile::parse("&MESH IJK=100000000000,100000000000,0 /").unwrap();
    assert_eq!(count_mesh_cells(&zero.nmls[0]), Ok(0));
}

#[test]
fn grid_dimensions_last_assignment_wins() {
    let file = FdsFile::parse("&MESH IJK=1,1,1, XB=0,1,0,1,0,1, IJK=2,3,4 /").unwrap();
    assert_eq!(count_mesh_cells(&file.nmls[0]), Ok(24));
}

#[test]
fn malformed_group_is_a_shape_error() {
    let file = FdsFile::parse("&MESH 5 /").unwrap();
    assert!(matches!(count_mesh_cells(&file.nmls[0]), Err(FdsParseError::NmlParse(Some(_)))));
    let file = FdsFile::parse("&MESH IJK /").unwrap();
    assert!(matches!(count_mesh_cells(&file.nmls[0]), Err(FdsParseError::NmlParse(Some(_)))));
}

#[test]
fn unclosed_quote_is_a_tokenize_error() {
    let r = apply_transforms(&Transforms { n_mpi: None }, "&HEAD CHID='abc /\n");
    assert!(matches!(r, Err(FdsParseError::Tokenize(_))));
}

#[test]
fn second_run_keeps_one_tag_per_mesh() {
    let t = Transforms { n_mpi: Some(2) };
    let (first, a1) = apply_transforms(&t, THREE_MESHES).unwrap();
    let (second, a2) = apply_transforms(&t, &first).unwrap();
    assert_eq!(tag_count(&first), 3);
    assert_eq!(tag_count(&second), 3);
    let totals = |o: &fdspp::TransformsOutcome| -> Vec<u64> {
        o.mesh_allocation.as_ref().unwrap().processes.iter().map(|p| p.total).collect()
    };
    assert_eq!(totals(&a1), totals(&a2));
    assert!(second.contains("IJK=20,20,20") && second.contains("MPI_PROCESS=0"));
    let many = "&MESH IJK=1,1,1 MPI_PROCESS=3 MPI_PROCESS=4 MPI_PROCESS=5 /\n";
    let (out, _) = apply_transforms(&Transforms { n_mpi: Some(1) }, many).unwrap();
    assert_eq!(tag_count(&out), 1);
    assert!(out.contains("MPI_PROCESS=0"));
}

#[test]
fn non_mesh_records_stay_in_place() {
    let input = "&HEAD /\n&MESH IJK=1,1,1 /\n&OBST XB=1 /\n&MESH IJK=9,9,9 /\n&TAIL /\n";
    let mut file = FdsFile::parse(input).unwrap();
    let before = file.clone();
    file.allocate_mpi_processes(2).unwrap();
    assert_eq!(file.nmls.len(), before.nmls.len());
    for (i, (old, new)) in before.nmls.iter().zip(file.nmls.iter()).enumerate() {
        if !old.is_mesh() {
            assert_eq!(old, new, "record {i}");
        } else {
            assert!(new.is_mesh());
        }
    }
    assert!(file.nmls[2].to_text().contains("IJK=9,9,9"));
    assert!(file.nmls[6].to_text().contains("IJK=1,1,1"));
}

#[test]
fn lpt_allocation_examples() {
    let (buckets, assign) = allocate(&vec![5, 5, 4, 3, 3, 3], 2);
    assert_eq!(buckets, vec![vec![0, 2, 5], vec![1, 3, 4]]);
    assert_eq!(assign, vec![0, 1, 0, 1, 1, 0]);
    let (buckets, assign) = allocate(&vec![], 3);
    assert_eq!(buckets, vec![Vec::<usize>::new(), vec![], vec![]]);
    assert!(assign.is_empty());
    let (buckets, _) = allocate(&vec![7, 1, 7], 1);
    assert_eq!(buckets, vec![vec![0, 2, 1]]);
    let (b1, a1) = allocate(&vec![3, 9, 2, 9, 4], 3);
    let (b2, a2) = allocate(&vec![3, 9, 2, 9, 4], 3);
    assert_eq!((b1.clone(), a1.clone()), (b2, a2));
    assert_eq!(b1, vec![vec![1], vec![3], vec![4, 0, 2]]);
}

#[test]
fn lpt_total_never_exceeds_all_in_one() {
    let w = vec![10, 3, 8, 8, 1, 6, 2];
    let all: u64 = w.iter().sum();
    for n in 1..5 {
        let (buckets, _) = allocate(&w, n);
        let max = *w.iter().max().unwrap();
        for b in buckets {
            let t: u64 = b.iter().map(|&i| w[i]).sum();
            assert!(t <= all);
            assert!(n as u64 * t <= all + n as u64 * max);
        }
    }
}

#[test]
fn cell_total() {
    let file = FdsFile::parse(THREE_MESHES).unwrap();
    assert_eq!(file.n_cells(), Ok(9125));
    let empty = FdsFile::parse("&HEAD /\n").unwrap();
    assert_eq!(empty.n_cells(), Ok(0));
}

#[test]
fn process_allocation_sums() {
    let p = MpiProcessAllocation::new(vec![4, 5, 6]);
    assert_eq!(p.total, 15);
    assert_eq!(p.meshes, vec![4, 5, 6]);
    assert_eq!(MpiProcessAllocation::new(vec![]).total, 0);
    assert!(AllocationOutcome::new().processes.is_empty());
    assert_eq!(AllocationOutcome::default(), AllocationOutcome::new());
}

#[test]
fn cell_count_needs_more_than_32_bits() {
    let file = FdsFile::parse("&MESH IJK=2000000,2000000,2000000 /").unwrap();
    assert_eq!(count_mesh_cells(&file.nmls[0]), Ok(8_000_000_000_000_000_000u64));
}

#[test]
fn error_messages() {
    assert_eq!(FdsParseError::InvalidProcessCount.span(), None);
    assert_eq!(
        FdsParseError::Parse(None, ParseProblem::WrongGridArity).message(),
        "incorrect number of IJK parameters"
    );
    assert_eq!(FdsParseError::Parse(None, ParseProblem::CellCountOverflow).message(), "cell count does not fit in 64 bits");
}

#[test]
fn decimal_and_unsigned_text() {
    assert_eq!(decimal_text(0), "0");
    assert_eq!(decimal_text(7), "7");
    assert_eq!(decimal_text(1203), "1203");
    assert_eq!(parse_unsigned_text("0042"), Some(42));
    assert_eq!(parse_unsigned_text("+9"), Some(9));
    assert_eq!(parse_unsigned_text("+"), None);
    assert_eq!(parse_unsigned_text(""), None);
    assert_eq!(parse_unsigned_text("-1"), None);
    assert_eq!(parse_unsigned_text("1e3"), None);
    assert_eq!(parse_unsigned_text("18446744073709551615"), Some(u64::MAX));
    assert_eq!(parse_unsigned_text("18446744073709551616"), None);
}

#[test]
fn parsed_records_and_tokens() {
    let file = FdsFile::parse("&MESH IJK=1,2,3 /\nnote\n").unwrap();
    assert_eq!(file.nmls.len(), 2);
    assert!(file.nmls[0].structured);
    assert!(!file.nmls[1].structured);
    let kinds: Vec<TokenKind> = file.nmls[0].tokens.iter().map(|t| t.token.kind).collect();
    assert_eq!(
        kinds,
        vec![
            TokenKind::Ampersand,
            TokenKind::Identifier,
            TokenKind::Whitespace,
            TokenKind::Identifier,
            TokenKind::Equals,
            TokenKind::Number,
            TokenKind::Comma,
            TokenKind::Number,
            TokenKind::Comma,
            TokenKind::Number,
            TokenKind::Whitespace,
            TokenKind::RightSlash,
        ]
    );
    assert_eq!(file.nmls[0].tokens[1].token.text, "MESH");
    assert_eq!(file.nmls[0].tokens[1].span, Some(SourceSpan { lo: 1, len: 4, line: 0, column: 1 }));
    assert_eq!(file.nmls[1].to_text(), "\nnote\n");
    assert_eq!(file.to_text(), "&MESH IJK=1,2,3 /\nnote\n");
}

#[test]
fn record_parameter_edits() {
    let file = FdsFile::parse("&MESH IJK=1,2,3 MPI_PROCESS = 4 /").unwrap();
    let mut rec: Record = file.nmls[0].clone();
    assert_eq!(rec.find_parameter("MPI_PROCESS"), Some((11, 16)));
    assert!(rec.remove_parameter("MPI_PROCESS"));
    assert_eq!(rec.to_text(), "&MESH IJK=1,2,3  /");
    assert!(!rec.remove_parameter("MPI_PROCESS"));
    rec.append_token(Lexeme { kind: TokenKind::Identifier, text: "X".to_string() });
    assert_eq!(rec.to_text(), "&MESH IJK=1,2,3  X/");
    rec.set_tag(12);
    assert_eq!(rec.to_text(), "&MESH IJK=1,2,3  X MPI_PROCESS=12 /");
    let mut open = Record {
        structured: true,
        tokens: vec![LocatedLexeme {
            span: None,
            token: Lexeme { kind: TokenKind::Ampersand, text: "&".to_string() },
        }],
    };
    open.append_token(Lexeme { kind: TokenKind::Identifier, text: "A".to_string() });
    assert_eq!(open.to_text(), "&A");
    assert_eq!(open.duplicate(), open);
}

#[test]
fn no_meshes_gives_empty_processes() {
    let input = "&HEAD CHID='a' /\n&TAIL /\n";
    let (out, outcome) = apply_transforms(&Transforms { n_mpi: Some(3) }, input).unwrap();
    assert_eq!(out, input);
    let alloc = outcome.mesh_allocation.unwrap();
    assert_eq!(alloc.processes.len(), 3);
    for p in alloc.processes {
        assert_eq!(p, MpiProcessAllocation { total: 0, meshes: vec![] });
    }
}

#[test]
fn token_spans_are_contiguous() {
    let input = "&HEAD CHID='é' /\n! note\n&MESH IJK=1,2,3 /\n";
    let file = FdsFile::parse(input).unwrap();
    let mut next = 0;
    for rec in &file.nmls {
        for t in &rec.tokens {
            let span = t.span.expect("span");
            assert_eq!(span.lo, next);
            next = span.lo + span.len;
        }
    }
    assert_eq!(next, input.len());
}
