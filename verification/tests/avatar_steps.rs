use mrs_proof_kernel::avatar_rules::{
    verify_avatar_branch_refutation, verify_avatar_component_clause, verify_avatar_split_clause,
    verify_split_component, AvatarComponentInfo, AvatarSplitContext, AvatarSplitInfo, SplitComponent,
};
use mrs_proof_kernel::branch::{
    is_avatar_split_literal, merge_branch_contexts, split_avatar_markers, BranchAssumption, BranchContext,
};
use mrs_proof_kernel::case_split::{verify_case_split, DagNode};
use mrs_proof_kernel::dag::topo_sort;
use mrs_proof_kernel::dispatch::verify_clause_rule;
use mrs_proof_kernel::manifest::verify_avatar_sat_manifest_binding;
use mrs_proof_kernel::sat_refutation::{
    avatar_sat_solver_verdict, verify_avatar_sat_refutation, AvatarSatInfo, AvatarSatStep, SolveOutcome,
};
use mrs_proof_kernel::sat_trace::AvatarSatTrace;
use mrs_proof_kernel::term::{Atom, Formula, Literal, Term};
use mrs_proof_kernel::verdict::{KernelVerdict, VerificationLimits};

// Symbol numbers index `names()`.
const P: u32 = 0;
const Q: u32 = 1;
const SPL1: u32 = 2;
const SPL2: u32 = 3;
const SPL3: u32 = 4;
const A: u32 = 5;
const BAD: u32 = 6;

fn names() -> Vec<String> {
    ["p", "q", "spl0_1", "spl0_2", "spl0_3", "a", "spl0_x"].iter().map(|s| s.to_string()).collect()
}

fn a() -> Term {
    Term::App(A, Vec::new())
}

fn atom(p: u32, args: Vec<Term>) -> Formula {
    Formula::Atom(Atom::Pred(p, args))
}

fn marker(p: u32) -> Formula {
    atom(p, Vec::new())
}

fn not(f: Formula) -> Formula {
    Formula::Neg(Box::new(f))
}

fn or(parts: Vec<Formula>) -> Formula {
    Formula::Or(parts)
}

fn lit(positive: bool, p: u32, args: Vec<Term>) -> Literal {
    Literal { positive, atom: Atom::Pred(p, args) }
}

fn limits() -> VerificationLimits {
    VerificationLimits::default()
}

fn rejected(reason: &str) -> KernelVerdict {
    KernelVerdict::Rejected(reason.to_string())
}

fn inconclusive(reason: &str) -> KernelVerdict {
    KernelVerdict::Inconclusive(reason.to_string())
}

fn err_of<T>(r: Result<T, KernelVerdict>) -> KernelVerdict {
    match r {
        Ok(_) => panic!("expected an error"),
        Err(v) => v,
    }
}

fn context(assumptions: Vec<BranchAssumption>, sat_context: Vec<u32>) -> BranchContext {
    BranchContext { assumptions, sat_context }
}

fn two_way_split() -> AvatarSplitInfo {
    AvatarSplitInfo {
        components: vec![
            SplitComponent { branch_index: 0, sat_var: "spl0_1".to_string(), literal_indices: vec![0] },
            SplitComponent { branch_index: 1, sat_var: "spl0_2".to_string(), literal_indices: vec![1] },
        ],
        inherited: Vec::new(),
    }
}

fn validated_split() -> AvatarSplitContext {
    let parent = or(vec![atom(P, vec![a()]), atom(Q, vec![a()])]);
    let split = or(vec![marker(SPL1), marker(SPL2)]);
    let info = two_way_split();
    match verify_avatar_split_clause(&[parent], &split, Some(7), None, Some(&info), &names(), limits()) {
        Ok(c) => c,
        Err(v) => panic!("split not validated: {:?}", v),
    }
}

#[test]
fn markers_are_separated_from_ordinary_literals() {
    let clause = vec![
        lit(true, P, vec![Term::Var(0)]),
        lit(false, SPL3, Vec::new()),
        lit(true, SPL1, Vec::new()),
        lit(false, SPL2, Vec::new()),
        lit(false, SPL3, Vec::new()),
    ];
    let (ordinary, negative, positive) = match split_avatar_markers(clause, &names()) {
        Ok(x) => x,
        Err(v) => panic!("unexpected {:?}", v),
    };
    assert_eq!(ordinary.len(), 1);
    assert_eq!(format!("{:?}", ordinary[0]), format!("{:?}", lit(true, P, vec![Term::Var(0)])));
    assert_eq!(negative, vec![2, 3]);
    assert_eq!(positive, vec![1]);
    assert!(is_avatar_split_literal(&lit(true, SPL2, Vec::new()), &names()));
    assert!(!is_avatar_split_literal(&lit(false, SPL2, Vec::new()), &names()));
    assert!(!is_avatar_split_literal(&lit(true, P, Vec::new()), &names()));
}

#[test]
fn marker_with_invalid_variable_is_rejected() {
    let clause = vec![lit(true, BAD, Vec::new())];
    assert_eq!(err_of(split_avatar_markers(clause, &names())), rejected("AVATAR marker has an invalid SAT variable"));
}

#[test]
fn split_component_assumes_a_parent_literal() {
    let parent = or(vec![atom(P, vec![a()]), atom(Q, vec![a()])]);
    let conclusion = atom(Q, vec![a()]);
    let ctx = match verify_split_component(&[parent], &conclusion, Some(3), limits()) {
        Ok(c) => c,
        Err(v) => panic!("unexpected {:?}", v),
    };
    assert_eq!(ctx.assumptions.len(), 1);
    assert_eq!(ctx.assumptions[0].split_parent, 3);
    assert_eq!(ctx.assumptions[0].branch_index, 1);
    assert_eq!(ctx.assumptions[0].sat_var, None);
    assert!(ctx.sat_context.is_empty());
}

#[test]
fn split_component_of_a_foreign_literal_is_rejected() {
    let parent = or(vec![atom(P, vec![a()]), atom(Q, vec![a()])]);
    let conclusion = atom(P, vec![Term::App(A, vec![a()])]);
    assert_eq!(
        err_of(verify_split_component(&[parent], &conclusion, Some(3), limits())),
        rejected("split_component conclusion is not a literal of its parent")
    );
}

#[test]
fn merged_contexts_take_the_union() {
    let left = context(
        vec![BranchAssumption { split_parent: 1, branch_index: 0, literal: lit(true, P, vec![a()]), sat_var: Some(1) }],
        vec![3, 1],
    );
    let right = context(
        vec![
            BranchAssumption { split_parent: 1, branch_index: 0, literal: lit(true, P, vec![a()]), sat_var: Some(1) },
            BranchAssumption { split_parent: 2, branch_index: 1, literal: lit(false, Q, vec![a()]), sat_var: Some(2) },
        ],
        vec![2, 3],
    );
    let merged = merge_branch_contexts(&left, &right);
    assert_eq!(merged.assumptions.len(), 2);
    assert_eq!(merged.assumptions[1].split_parent, 2);
    assert_eq!(merged.sat_context, vec![1, 2, 3]);
}

#[test]
fn branch_refutation_closes_a_false_branch() {
    let contexts = vec![(5usize, context(Vec::new(), vec![1, 2]))];
    let parent = or(vec![not(marker(SPL2)), not(marker(SPL1))]);
    let annotation = vec!["spl0_2".to_string(), "spl0_1".to_string()];
    let closed = verify_avatar_branch_refutation(
        &[parent],
        &Formula::False,
        Some(5),
        &contexts,
        Some(&annotation),
        &names(),
        limits(),
    );
    match closed {
        Ok(c) => assert_eq!(c.sat_context, vec![1, 2]),
        Err(v) => panic!("unexpected {:?}", v),
    }
}

#[test]
fn branch_refutation_with_another_context_is_rejected() {
    let contexts = vec![(5usize, context(Vec::new(), vec![1, 2]))];
    let parent = or(vec![not(marker(SPL2)), not(marker(SPL1))]);
    let annotation = vec!["spl0_1".to_string()];
    let closed = verify_avatar_branch_refutation(
        &[parent],
        &Formula::False,
        Some(5),
        &contexts,
        Some(&annotation),
        &names(),
        limits(),
    );
    assert_eq!(err_of(closed), rejected("avatar_branch_refutation SAT context does not match its branch"));
    let missing = verify_avatar_branch_refutation(
        &[Formula::False],
        &Formula::False,
        Some(6),
        &contexts,
        Some(&annotation),
        &names(),
        limits(),
    );
    assert_eq!(err_of(missing), rejected("avatar_branch_refutation parent has no branch context"));
}

#[test]
fn split_clause_records_its_branches() {
    let split = validated_split();
    assert_eq!(split.split_parent, 7);
    assert_eq!(split.parent_literals.len(), 2);
    assert_eq!(split.branch_vars, vec![1, 2]);
    assert_eq!(split.component_literal_indices, vec![vec![0], vec![1]]);
    assert!(split.inherited_vars.is_empty());
    assert!(split.inherited_assumptions.is_empty());
}

#[test]
fn split_clause_metadata_errors() {
    let parent = or(vec![atom(P, vec![a()]), atom(Q, vec![a()])]);
    let split = or(vec![marker(SPL1), marker(SPL2)]);
    let none = verify_avatar_split_clause(&[parent], &split, Some(7), None, None, &names(), limits());
    assert_eq!(err_of(none), inconclusive("avatar_split_clause lacks explicit branch metadata"));

    let parent = or(vec![atom(P, vec![a()]), atom(Q, vec![a()])]);
    let split = or(vec![marker(SPL1), marker(SPL2)]);
    let overlapping = AvatarSplitInfo {
        components: vec![
            SplitComponent { branch_index: 0, sat_var: "spl0_1".to_string(), literal_indices: vec![0] },
            SplitComponent { branch_index: 1, sat_var: "spl0_2".to_string(), literal_indices: vec![0, 1] },
        ],
        inherited: Vec::new(),
    };
    let r = verify_avatar_split_clause(&[parent], &split, Some(7), None, Some(&overlapping), &names(), limits());
    assert_eq!(err_of(r), rejected("avatar_split_clause assigns a literal to multiple components"));

    let parent = or(vec![atom(P, vec![a()]), atom(Q, vec![a()])]);
    let split = or(vec![marker(SPL1), marker(SPL2)]);
    let inherited = AvatarSplitInfo { inherited: vec!["spl0_3".to_string()], ..two_way_split() };
    let r = verify_avatar_split_clause(&[parent], &split, Some(7), None, Some(&inherited), &names(), limits());
    assert_eq!(err_of(r), rejected("avatar_split_clause has inherited context without a branch parent"));

    let parent = atom(P, vec![a()]);
    let split = or(vec![marker(SPL1), marker(SPL2)]);
    let r = verify_avatar_split_clause(&[parent], &split, Some(7), None, Some(&two_way_split()), &names(), limits());
    assert_eq!(err_of(r), rejected("avatar_split_clause has invalid parent or split marker clauses"));
}

#[test]
fn component_clause_opens_its_branch() {
    let splits = vec![(7usize, validated_split())];
    let conclusion = or(vec![atom(Q, vec![a()]), not(marker(SPL2))]);
    let info = AvatarComponentInfo { split_parent: "c7".to_string(), branch_index: 1, sat_var: "spl0_2".to_string() };
    let r = verify_avatar_component_clause(
        &[Formula::True],
        &conclusion,
        Some(7),
        &splits,
        None,
        Some("c7"),
        Some(&info),
        &names(),
        limits(),
    );
    let ctx = match r {
        Ok(c) => c,
        Err(v) => panic!("unexpected {:?}", v),
    };
    assert_eq!(ctx.assumptions.len(), 1);
    assert_eq!(ctx.assumptions[0].split_parent, 7);
    assert_eq!(ctx.assumptions[0].branch_index, 1);
    assert_eq!(ctx.assumptions[0].sat_var, Some(2));
    assert_eq!(format!("{:?}", ctx.assumptions[0].literal), format!("{:?}", lit(true, Q, vec![a()])));
    assert_eq!(ctx.sat_context, vec![2]);
}

#[test]
fn component_clause_errors() {
    let splits = vec![(7usize, validated_split())];
    let conclusion = or(vec![atom(Q, vec![a()]), not(marker(SPL2))]);
    let info = AvatarComponentInfo { split_parent: "c7".to_string(), branch_index: 1, sat_var: "spl0_2".to_string() };
    let wrong_name = verify_avatar_component_clause(
        &[Formula::True], &conclusion, Some(7), &splits, None, Some("c8"), Some(&info), &names(), limits(),
    );
    assert_eq!(err_of(wrong_name), rejected("avatar_component_clause cites the wrong split parent"));
    let wrong_branch = AvatarComponentInfo { branch_index: 0, sat_var: "spl0_1".to_string(), ..info };
    let r = verify_avatar_component_clause(
        &[Formula::True], &conclusion, Some(7), &splits, None, Some("c7"), Some(&wrong_branch), &names(), limits(),
    );
    assert_eq!(err_of(r), rejected("avatar_component_clause metadata does not match its branch"));
    let info = AvatarComponentInfo { split_parent: "c7".to_string(), branch_index: 5, sat_var: "spl0_2".to_string() };
    let r = verify_avatar_component_clause(
        &[Formula::True], &conclusion, Some(7), &splits, None, Some("c7"), Some(&info), &names(), limits(),
    );
    assert_eq!(err_of(r), rejected("avatar_component_clause references an unknown branch"));
    let r = verify_avatar_component_clause(
        &[Formula::True], &conclusion, Some(9), &splits, None, Some("c7"), Some(&info), &names(), limits(),
    );
    assert_eq!(err_of(r), rejected("avatar_component_clause parent is not a validated split"));
}

fn case_nodes() -> Vec<DagNode> {
    vec![
        DagNode { name: "top".to_string(), rule: None, is_false: false },
        DagNode { name: "r1".to_string(), rule: None, is_false: true },
        DagNode { name: "r2".to_string(), rule: None, is_false: true },
    ]
}

fn case_contexts() -> Vec<(usize, BranchContext)> {
    vec![
        (1, context(vec![BranchAssumption { split_parent: 0, branch_index: 0, literal: lit(true, P, vec![a()]), sat_var: None }], Vec::new())),
        (2, context(vec![BranchAssumption { split_parent: 0, branch_index: 1, literal: lit(true, Q, vec![a()]), sat_var: None }], Vec::new())),
    ]
}

#[test]
fn case_split_with_every_branch_refuted_is_certified() {
    let formulas = vec![(0usize, or(vec![atom(P, vec![a()]), atom(Q, vec![a()])]))];
    let v = verify_case_split(true, &case_nodes(), &vec![0, 1, 2], &formulas, &case_contexts(), &Vec::new(), &names(), limits());
    assert_eq!(v, KernelVerdict::Certified);
}

#[test]
fn case_split_errors() {
    let formulas = vec![(0usize, or(vec![atom(P, vec![a()]), atom(Q, vec![a()])]))];
    let v = verify_case_split(true, &case_nodes(), &vec![0, 1], &formulas, &case_contexts(), &Vec::new(), &names(), limits());
    assert_eq!(v, rejected("avatar_sat_refutation covers 1 of 2 branches"));
    let only_first: Vec<(usize, BranchContext)> = case_contexts().into_iter().take(1).collect();
    let v = verify_case_split(true, &case_nodes(), &vec![0, 1, 2], &formulas, &only_first, &Vec::new(), &names(), limits());
    assert_eq!(v, rejected("avatar_sat_refutation branch `r2` has no case context"));
    let v = verify_case_split(false, &case_nodes(), &vec![0, 1, 2], &formulas, &case_contexts(), &Vec::new(), &names(), limits());
    assert_eq!(v, rejected("avatar_sat_refutation must conclude `$false`"));
    let v = verify_case_split(true, &case_nodes(), &vec![0], &formulas, &case_contexts(), &Vec::new(), &names(), limits());
    assert_eq!(v, rejected("avatar_sat_refutation requires a split parent and branch roots"));
    let markers = vec![(0usize, or(vec![marker(SPL1), marker(SPL2)]))];
    let marker_contexts = vec![
        (1, context(vec![BranchAssumption { split_parent: 0, branch_index: 0, literal: lit(true, SPL1, Vec::new()), sat_var: None }], Vec::new())),
        (2, context(vec![BranchAssumption { split_parent: 0, branch_index: 1, literal: lit(true, SPL2, Vec::new()), sat_var: None }], Vec::new())),
    ];
    let v = verify_case_split(true, &case_nodes(), &vec![0, 1, 2], &markers, &marker_contexts, &Vec::new(), &names(), limits());
    assert_eq!(v, rejected("avatar_sat_refutation lacks an explicit validated split certificate"));
    let twice = vec![
        (1, context(vec![BranchAssumption { split_parent: 0, branch_index: 0, literal: lit(true, P, vec![a()]), sat_var: None }], Vec::new())),
        (2, context(vec![BranchAssumption { split_parent: 0, branch_index: 0, literal: lit(true, P, vec![a()]), sat_var: None }], Vec::new())),
    ];
    let v = verify_case_split(true, &case_nodes(), &vec![0, 1, 2], &formulas, &twice, &Vec::new(), &names(), limits());
    assert_eq!(v, rejected("avatar_sat_refutation contains a duplicate branch"));
}

fn manifest(cited: Vec<usize>) -> AvatarSatTrace {
    AvatarSatTrace {
        format: None,
        variables: None,
        digest: None,
        original_ids: Vec::new(),
        cited_indices: cited,
        clauses: vec![vec![-1, -2], vec![1, 2]],
        bytes: None,
    }
}

#[test]
fn manifest_binding_matches_cited_splits_and_branches() {
    let splits = vec![(7usize, validated_split())];
    let contexts = vec![(9usize, context(Vec::new(), vec![1, 2]))];
    let r = verify_avatar_sat_manifest_binding(&manifest(vec![1, 0]), &vec![7], &vec![9], &splits, &contexts);
    assert!(r.is_ok());
    let r = verify_avatar_sat_manifest_binding(&manifest(vec![0, 1]), &vec![7], &vec![9], &splits, &contexts);
    assert_eq!(err_of(r), rejected("avatar SAT trace citation does not match its AVATAR certificate"));
    let r = verify_avatar_sat_manifest_binding(&manifest(vec![1, 1]), &vec![7], &vec![9], &splits, &contexts);
    assert_eq!(err_of(r), rejected("avatar SAT trace cites one manifest clause more than once"));
    let r = verify_avatar_sat_manifest_binding(&manifest(vec![1]), &vec![7], &vec![9], &splits, &contexts);
    assert_eq!(err_of(r), rejected("avatar SAT trace citation indices do not match cited split and branch count"));
    let r = verify_avatar_sat_manifest_binding(&manifest(vec![1, 0]), &vec![8], &vec![9], &splits, &contexts);
    assert_eq!(err_of(r), rejected("avatar SAT trace references an unvalidated split"));
    let r = verify_avatar_sat_manifest_binding(&manifest(vec![1, 0]), &vec![7], &vec![8], &splits, &contexts);
    assert_eq!(err_of(r), rejected("avatar SAT trace references an unknown branch"));
}

#[test]
fn clause_rules_are_found_by_name() {
    let parents = [or(vec![atom(P, vec![a()]), atom(Q, vec![a()])]), not(atom(P, vec![a()]))];
    let conclusion = atom(Q, vec![a()]);
    assert_eq!(
        verify_clause_rule("resolution", "n1", &parents, &conclusion, limits(), &vec![], &vec![], &vec![]),
        Some(KernelVerdict::Certified)
    );
    assert_eq!(verify_clause_rule("no_such_rule", "n1", &parents, &conclusion, limits(), &vec![], &vec![], &vec![]), None);
}

#[test]
fn topo_sort_takes_the_smallest_ready_node_first() {
    let parents: Vec<Vec<usize>> = vec![vec![3], vec![], vec![1, 1], vec![], vec![0, 2]];
    match topo_sort(&parents) {
        Ok(order) => assert_eq!(order, vec![1, 2, 3, 0, 4]),
        Err(v) => panic!("unexpected {:?}", v),
    }
    let cyclic: Vec<Vec<usize>> = vec![vec![1], vec![0], vec![]];
    assert_eq!(err_of(topo_sort(&cyclic)), rejected("cycle in proof parent graph"));
    let self_loop: Vec<Vec<usize>> = vec![vec![0]];
    assert_eq!(err_of(topo_sort(&self_loop)), rejected("cycle in proof parent graph"));
    assert_eq!(topo_sort(&Vec::new()).map(|o| o.len()).unwrap_or(1), 0);
}

fn hex(bytes: &[u8]) -> String {
    bytes.iter().map(|b| format!("{:02x}", b)).collect()
}

fn sat_nodes() -> Vec<DagNode> {
    vec![
        DagNode { name: "s".to_string(), rule: Some("avatar_split_clause".to_string()), is_false: false },
        DagNode { name: "b1".to_string(), rule: Some("avatar_branch_refutation".to_string()), is_false: true },
        DagNode { name: "b2".to_string(), rule: Some("avatar_branch_refutation".to_string()), is_false: true },
    ]
}

fn branch(index: usize, var: u32) -> BranchContext {
    context(
        vec![BranchAssumption { split_parent: 0, branch_index: index, literal: lit(true, P, vec![a()]), sat_var: Some(var) }],
        vec![var],
    )
}

fn sat_info(splits: &[&str], roots: &[&str], trace: AvatarSatTrace) -> Option<AvatarSatInfo> {
    Some(AvatarSatInfo {
        split_nodes: splits.iter().map(|s| s.to_string()).collect(),
        branch_roots: roots.iter().map(|s| s.to_string()).collect(),
        trace,
    })
}

fn no_trace() -> AvatarSatTrace {
    AvatarSatTrace {
        format: None,
        variables: None,
        digest: None,
        original_ids: Vec::new(),
        cited_indices: Vec::new(),
        clauses: Vec::new(),
        bytes: None,
    }
}

fn refutation_trace() -> AvatarSatTrace {
    AvatarSatTrace {
        format: Some("lrat".to_string()),
        variables: Some(2),
        digest: Some("00".repeat(32)),
        original_ids: vec![1, 2, 3],
        cited_indices: vec![0, 1, 2],
        clauses: vec![vec![1, 2], vec![-1], vec![-2]],
        bytes: Some(hex(b"4 2 0 1 2 0\n5 d 2 0\n6 0 4 3 0\n")),
    }
}

fn sat_step(
    parents: Vec<usize>,
    contexts: Vec<(usize, BranchContext)>,
    info: Option<AvatarSatInfo>,
    digest: [u8; 32],
) -> AvatarSatStep {
    let splits = vec![(0usize, validated_split())];
    verify_avatar_sat_refutation(true, &sat_nodes(), &parents, &contexts, &splits, &info, digest, limits())
}

fn done(step: AvatarSatStep) -> KernelVerdict {
    match step {
        AvatarSatStep::Done(v) => v,
        AvatarSatStep::Solve(cls) => panic!("unexpected SAT instance {:?}", cls),
    }
}

#[test]
fn avatar_sat_refutation_without_trace_asks_a_solver() {
    let contexts = vec![(1usize, branch(0, 1)), (2usize, branch(1, 2))];
    let step = sat_step(vec![0, 1, 2], contexts, sat_info(&["s"], &["b1", "b2"], no_trace()), [0; 32]);
    match step {
        AvatarSatStep::Solve(cls) => assert_eq!(cls, vec![vec![1, 2], vec![-1], vec![-2]]),
        AvatarSatStep::Done(v) => panic!("unexpected verdict {:?}", v),
    }
    assert_eq!(avatar_sat_solver_verdict(SolveOutcome::Unsat), KernelVerdict::Certified);
    assert_eq!(
        avatar_sat_solver_verdict(SolveOutcome::Sat),
        rejected("avatar_sat_refutation leaves a satisfiable SAT assignment unrefuted")
    );
    assert_eq!(
        avatar_sat_solver_verdict(SolveOutcome::Unknown),
        inconclusive("avatar_sat_refutation SAT verification inconclusive")
    );
}

#[test]
fn avatar_sat_refutation_with_a_bound_trace_is_certified() {
    let contexts = vec![(1usize, branch(0, 1)), (2usize, branch(1, 2))];
    let step = sat_step(vec![0, 1, 2], contexts, sat_info(&["s"], &["b1", "b2"], refutation_trace()), [0; 32]);
    assert_eq!(done(step), KernelVerdict::Certified);
    let contexts = vec![(1usize, branch(0, 1)), (2usize, branch(1, 2))];
    let step = sat_step(vec![0, 1, 2], contexts, sat_info(&["s"], &["b1", "b2"], refutation_trace()), [1; 32]);
    assert_eq!(done(step), rejected("avatar SAT trace digest does not match its payload"));
}

#[test]
fn avatar_sat_refutation_errors() {
    let good = || vec![(1usize, branch(0, 1)), (2usize, branch(1, 2))];
    let info = || sat_info(&["s"], &["b1", "b2"], no_trace());
    let splits = vec![(0usize, validated_split())];
    let v = verify_avatar_sat_refutation(false, &sat_nodes(), &vec![0, 1, 2], &good(), &splits, &info(), [0; 32], limits());
    assert_eq!(done(v), rejected("avatar_sat_refutation must conclude `$false` from a split and branches"));
    assert_eq!(done(sat_step(vec![0, 1, 2], good(), None, [0; 32])), inconclusive("avatar_sat_refutation lacks explicit SAT metadata"));
    assert_eq!(
        done(sat_step(vec![0, 1, 2], good(), sat_info(&["x"], &["b1", "b2"], no_trace()), [0; 32])),
        rejected("avatar_sat_refutation references an unknown split node")
    );
    assert_eq!(
        done(sat_step(vec![0, 1, 2], good(), sat_info(&["s"], &["b1", "zz"], no_trace()), [0; 32])),
        rejected("avatar_sat_refutation references an unknown branch root")
    );
    assert_eq!(
        done(sat_step(vec![0, 1], good(), info(), [0; 32])),
        rejected("avatar_sat_refutation metadata does not match its parent list")
    );
    assert_eq!(
        done(sat_step(vec![1, 2], good(), sat_info(&["b1"], &["b1", "b2"], no_trace()), [0; 32])),
        rejected("avatar_sat_refutation cites a non-split node")
    );
    assert_eq!(
        done(sat_step(vec![0, 1, 2], vec![(1usize, branch(0, 1))], info(), [0; 32])),
        rejected("avatar_sat_refutation branch `b2` has no context")
    );
    assert_eq!(
        done(sat_step(vec![0, 1, 2], vec![(1usize, branch(0, 2)), (2usize, branch(1, 2))], info(), [0; 32])),
        rejected("avatar_sat_refutation branch has an invalid SAT assumption")
    );
    let mut uncited = branch(0, 1);
    uncited.assumptions[0].split_parent = 5;
    assert_eq!(
        done(sat_step(vec![0, 1, 2], vec![(1usize, uncited), (2usize, branch(1, 2))], info(), [0; 32])),
        rejected("avatar_sat_refutation branch descends from an uncited split")
    );
    let twice = vec![(1usize, branch(0, 1)), (2usize, context(branch(1, 2).assumptions, vec![1, 1]))];
    assert_eq!(
        done(sat_step(vec![0, 1, 2], twice, info(), [0; 32])),
        rejected("avatar_sat_refutation contains a duplicate branch context")
    );
}
