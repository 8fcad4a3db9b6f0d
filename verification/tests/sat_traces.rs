use std::collections::HashMap;

use mrs_proof_kernel::avatar::{normalize_avatar_vars, normalize_avatar_vars_copy, parse_avatar_var};
use mrs_proof_kernel::hex::{decode_hex, decode_hex_digest, hex_digit};
use mrs_proof_kernel::rules::expected_status;
use mrs_proof_kernel::sat::{is_tautology_kernel, rup_check_kernel};
use mrs_proof_kernel::text::str_chars;
use mrs_proof_kernel::trace::{parse_trace_clause, replay_frat_lrat, replay_lrat, trace_error};
use mrs_proof_kernel::case_split::DagNode;
use mrs_proof_kernel::sat_backed::{verify_sat_backed_refutation, SatBackedInfo};
use mrs_proof_kernel::term::{Atom, Formula, Term};
use mrs_proof_kernel::verdict::{KernelVerdict, VerificationLimits};

fn manifest() -> Vec<Vec<i32>> {
    vec![vec![1, 2], vec![-1], vec![-2]]
}

fn rejected(reason: &str) -> KernelVerdict {
    KernelVerdict::Rejected(reason.to_string())
}

#[test]
fn frat_trace_refutes_its_manifest() {
    let trace = b"o 1  1 2 0\no 2  -1 0\na 3  2 0  l 2 1 0\no 4  -2 0\na 5  0  l 3 4 0\nd 4  -2 0\nf 2  -1 0\nf 3  2 0\nf 1  1 2 0\nf 5  0\n";
    let result = replay_frat_lrat(&manifest(), &[1, 2, 4], trace, 2, VerificationLimits::default());
    assert_eq!(result, Ok(()));
}

#[test]
fn lrat_trace_refutes_its_manifest() {
    let trace = b"4 2 0 1 2 0\n5 d 2 0\n6 0 4 3 0\n";
    let result = replay_lrat(&manifest(), &[1, 2, 3], trace, 2, VerificationLimits::default());
    assert_eq!(result, Ok(()));
}

#[test]
fn lrat_trace_without_the_empty_clause_is_rejected() {
    let trace = b"4 2 0 1 2 0\n";
    let result = replay_lrat(&manifest(), &[1, 2, 3], trace, 2, VerificationLimits::default());
    assert!(matches!(result, Err(KernelVerdict::Rejected(_))));
}

#[test]
fn lrat_step_with_a_wrong_hint_is_rejected() {
    let trace = b"4 2 0 2 0\n6 0 4 3 0\n";
    let result = replay_lrat(&manifest(), &[1, 2, 3], trace, 2, VerificationLimits::default());
    assert!(matches!(result, Err(KernelVerdict::Rejected(_))));
}

#[test]
fn frat_trace_that_does_not_reach_false_is_rejected() {
    let trace = b"o 1  1 2 0\no 2  -1 0\no 4  -2 0\n";
    let result = replay_frat_lrat(&manifest(), &[1, 2, 4], trace, 2, VerificationLimits::default());
    assert!(matches!(result, Err(KernelVerdict::Rejected(_))));
}

#[test]
fn frat_trace_must_be_text() {
    let trace = [0xffu8, 0xfe, 0x00];
    let result = replay_frat_lrat(&manifest(), &[1, 2, 4], &trace, 2, VerificationLimits::default());
    assert!(matches!(result, Err(KernelVerdict::Rejected(_))));
}

#[test]
fn trace_error_names_the_line() {
    assert_eq!(trace_error(0, "unterminated clause"), rejected("malformed AVATAR SAT trace at line 1: unterminated clause"));
    assert_eq!(trace_error(41, "x"), rejected("malformed AVATAR SAT trace at line 42: x"));
}

#[test]
fn parse_trace_clause_reads_up_to_zero() {
    let tokens: Vec<Vec<char>> = ["3", "-4", "0", "7"].iter().map(|t| str_chars(t)).collect();
    let mut pos = 0usize;
    assert_eq!(parse_trace_clause(&tokens, &mut pos, 0, 10), Ok(vec![3, -4]));
    assert_eq!(pos, 3);
    let mut pos = 3usize;
    assert_eq!(
        parse_trace_clause(&tokens, &mut pos, 4, 10),
        Err(rejected("malformed AVATAR SAT trace at line 5: unterminated clause"))
    );
    let bad: Vec<Vec<char>> = ["x", "0"].iter().map(|t| str_chars(t)).collect();
    let mut pos = 0usize;
    assert_eq!(
        parse_trace_clause(&bad, &mut pos, 0, 10),
        Err(rejected("malformed AVATAR SAT trace at line 1: invalid clause literal"))
    );
    let long: Vec<Vec<char>> = ["1", "2", "0"].iter().map(|t| str_chars(t)).collect();
    let mut pos = 0usize;
    assert_eq!(
        parse_trace_clause(&long, &mut pos, 0, 1),
        Err(KernelVerdict::Inconclusive("avatar SAT trace clause exceeds the strict literal limit".to_string()))
    );
}

#[test]
fn rup_check_propagates_units() {
    let mut clauses = HashMap::new();
    clauses.insert(1i64, vec![1, 2]);
    clauses.insert(2i64, vec![-1]);
    clauses.insert(3i64, vec![-2]);
    assert!(rup_check_kernel(&clauses, &[2], &[2, 1]));
    assert!(rup_check_kernel(&clauses, &[], &[2, 1, 3]));
    assert!(!rup_check_kernel(&clauses, &[], &[2, 1]));
    assert!(!rup_check_kernel(&clauses, &[2], &[9]));
    assert!(!rup_check_kernel(&clauses, &[], &[1]));
}

#[test]
fn tautology_has_a_complementary_pair() {
    assert!(is_tautology_kernel(&[3, 1, -3]));
    assert!(!is_tautology_kernel(&[1, 2]));
    assert!(!is_tautology_kernel(&[]));
}

#[test]
fn hex_decoding() {
    assert_eq!(hex_digit(b'7'), Some(7));
    assert_eq!(hex_digit(b'b'), Some(11));
    assert_eq!(hex_digit(b'F'), Some(15));
    assert_eq!(hex_digit(b'g'), None);
    assert_eq!(decode_hex("00ff10Ab"), Some(vec![0x00, 0xff, 0x10, 0xab]));
    assert_eq!(decode_hex(""), Some(vec![]));
    assert_eq!(decode_hex("abc"), None);
    assert_eq!(decode_hex("zz"), None);
    let digest = "00112233445566778899aabbccddeeff00112233445566778899aabbccddeeff";
    let bytes = decode_hex_digest(digest).expect("32 bytes");
    assert_eq!(bytes[0], 0x00);
    assert_eq!(bytes[15], 0xff);
    assert_eq!(bytes[31], 0xff);
    assert_eq!(decode_hex_digest("00ff"), None);
}

#[test]
fn avatar_variables_are_named_and_normalized() {
    assert_eq!(parse_avatar_var("spl0_5"), Some(5));
    assert_eq!(parse_avatar_var("spl_12"), Some(12));
    assert_eq!(parse_avatar_var("spl0_0"), None);
    assert_eq!(parse_avatar_var("spl0_2147483647"), Some(2147483647));
    assert_eq!(parse_avatar_var("spl0_2147483648"), None);
    assert_eq!(parse_avatar_var("p0_3"), None);
    assert_eq!(parse_avatar_var("spl0_x"), None);
    let mut vars = vec![5, 1, 5, 3, 1];
    normalize_avatar_vars(&mut vars);
    assert_eq!(vars, vec![1, 3, 5]);
    assert_eq!(normalize_avatar_vars_copy(vec![2, 2, 1]), vec![1, 2]);
    assert_eq!(normalize_avatar_vars_copy(normalize_avatar_vars_copy(vec![9, 4, 9])), vec![4, 9]);
}

#[test]
fn expected_status_of_rules() {
    assert_eq!(expected_status("negated_conjecture"), Some("cth"));
    assert_eq!(expected_status("skolemize"), Some("esa"));
    assert_eq!(expected_status("resolution"), Some("thm"));
    assert_eq!(expected_status("paramodulation"), Some("thm"));
    assert_eq!(expected_status("unknown_rule"), None);
}

fn hex(bytes: &[u8]) -> String {
    bytes.iter().map(|b| format!("{:02x}", b)).collect()
}

// Symbols: p, q, r, a, b.
fn ground(p: u32, c: u32) -> Formula {
    Formula::Atom(Atom::Pred(p, vec![Term::App(c, Vec::new())]))
}

fn not(f: Formula) -> Formula {
    Formula::Neg(Box::new(f))
}

fn symbol_names() -> Vec<String> {
    ["p", "q", "r", "a", "b"].iter().map(|s| s.to_string()).collect()
}

fn backed_parents() -> Vec<Formula> {
    vec![
        Formula::Or(vec![ground(1, 3), ground(0, 3)]),
        Formula::Or(vec![not(ground(0, 3)), ground(2, 3)]),
        not(ground(1, 3)),
        not(ground(2, 3)),
    ]
}

fn backed_nodes() -> Vec<DagNode> {
    ["c1", "c2", "c3", "c4"]
        .iter()
        .map(|n| DagNode { name: n.to_string(), rule: None, is_false: false })
        .collect()
}

/// p(a) < q(a) < r(a): the parents are {2, 1}, {-1, 3}, {-2}, {-3}.
fn backed_info(clauses: Vec<Vec<i32>>) -> Option<SatBackedInfo> {
    Some(SatBackedInfo {
        trace_format: Some("lrat".to_string()),
        inputs: ["c1", "c2", "c3", "c4"].iter().map(|s| s.to_string()).collect(),
        trace_variables: Some(3),
        trace_digest: Some("00".repeat(32)),
        trace_original_ids: vec![1, 2, 3, 4],
        trace_cited_indices: vec![0, 1, 2, 3],
        trace_clauses: clauses,
        trace_bytes: Some(hex(b"5 -1 0 4 2 0\n6 0 5 3 1 0\n")),
    })
}

fn backed(info: Option<SatBackedInfo>, digest: [u8; 32]) -> KernelVerdict {
    verify_sat_backed_refutation(
        true,
        &backed_nodes(),
        &vec![0, 1, 2, 3],
        &backed_parents(),
        &info,
        &symbol_names(),
        digest,
        VerificationLimits::default(),
    )
}

#[test]
fn sat_backed_refutation_replays_its_encoding() {
    let manifest = vec![vec![1, 2], vec![-1, 3], vec![-2], vec![-3]];
    assert_eq!(backed(backed_info(manifest), [0; 32]), KernelVerdict::Certified);
}

#[test]
fn sat_backed_refutation_errors() {
    let manifest = || vec![vec![1, 2], vec![-1, 3], vec![-2], vec![-3]];
    // Numbering the atoms in another order does not match the parents.
    let swapped = vec![vec![2, 1], vec![-2, 3], vec![-1], vec![-3]];
    assert_eq!(backed(backed_info(swapped), [0; 32]), rejected("sat_backed_refutation manifest does not match its parents"));
    assert_eq!(
        backed(backed_info(manifest()), [7; 32]),
        rejected("sat_backed_refutation digest does not match its payload")
    );
    let mut info = backed_info(manifest());
    if let Some(i) = info.as_mut() {
        i.trace_variables = Some(4);
    }
    assert_eq!(backed(info, [0; 32]), rejected("sat_backed_refutation variable bound does not match its atoms"));
    let mut info = backed_info(manifest());
    if let Some(i) = info.as_mut() {
        i.trace_cited_indices = vec![0, 1, 3, 2];
    }
    assert_eq!(backed(info, [0; 32]), rejected("sat_backed_refutation must cite every manifest entry in order"));
    let mut info = backed_info(manifest());
    if let Some(i) = info.as_mut() {
        i.inputs.pop();
    }
    assert_eq!(backed(info, [0; 32]), rejected("sat_backed_refutation inputs do not match its parent list"));
    let mut info = backed_info(manifest());
    if let Some(i) = info.as_mut() {
        i.trace_format = Some("drat".to_string());
    }
    assert_eq!(
        backed(info, [0; 32]),
        KernelVerdict::Inconclusive("unsupported sat-backed trace format `drat`".to_string())
    );
    assert_eq!(backed(None, [0; 32]), KernelVerdict::Inconclusive("sat_backed_refutation lacks SAT metadata".to_string()));
    let mut nodes = backed_nodes();
    nodes[2].rule = Some("resolution".to_string());
    let v = verify_sat_backed_refutation(
        true, &nodes, &vec![0, 1, 2, 3], &backed_parents(), &backed_info(manifest()), &symbol_names(), [0; 32],
        VerificationLimits::default(),
    );
    assert_eq!(v, rejected("sat_backed_refutation parent `c3` uses unsupported rule `resolution`"));
    let mut parents = backed_parents();
    parents[3] = Formula::Atom(Atom::Pred(2, vec![Term::Var(0)]));
    let v = verify_sat_backed_refutation(
        true, &backed_nodes(), &vec![0, 1, 2, 3], &parents, &backed_info(manifest()), &symbol_names(), [0; 32],
        VerificationLimits::default(),
    );
    assert_eq!(v, rejected("sat_backed_refutation supports ground atoms only"));
    let v = verify_sat_backed_refutation(
        false, &backed_nodes(), &vec![0, 1, 2, 3], &backed_parents(), &backed_info(manifest()), &symbol_names(), [0; 32],
        VerificationLimits::default(),
    );
    assert_eq!(v, rejected("sat_backed_refutation must conclude `$false`"));
}
