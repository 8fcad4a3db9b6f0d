use mrs_proof_kernel::ac::{classify_ac_axiom, AcAxiomKind};
use mrs_proof_kernel::hex::decode_hex;
use mrs_proof_kernel::term::{render_atom, render_term, Atom, Term};
use mrs_proof_kernel::text::decimal_text;

#[test]
fn decimal_text_renders_digits() {
    assert_eq!(decimal_text(0), "0");
    assert_eq!(decimal_text(7), "7");
    assert_eq!(decimal_text(1204), "1204");
    assert_eq!(decimal_text(usize::MAX), usize::MAX.to_string());
}

#[test]
fn terms_and_atoms_render_structurally() {
    let t = Term::App(3, vec![Term::Var(0), Term::App(12, Vec::new())]);
    assert_eq!(render_term(&t), "App(3, [Var(0), App(12, [])])");
    let a = Atom::Eq(Term::App(1, vec![Term::Var(0), Term::Var(1)]), Term::Var(2));
    assert_eq!(render_atom(&a), "Eq(App(1, [Var(0), Var(1)]), Var(2))");
    let p = Atom::Pred(5, vec![Term::Var(4)]);
    assert_eq!(render_atom(&p), "Pred(5, [Var(4)])");
}

#[test]
fn hex_encoding_round_trips() {
    let bytes: Vec<u8> = vec![0, 1, 0x7f, 0x80, 0xab, 0xff];
    let lower: String = bytes.iter().map(|b| format!("{b:02x}")).collect();
    let upper: String = bytes.iter().map(|b| format!("{b:02X}")).collect();
    assert_eq!(decode_hex(&lower), Some(bytes.clone()));
    assert_eq!(decode_hex(&upper), Some(bytes));
}

#[test]
fn ac_classification_ignores_the_side() {
    let comm_l = Term::App(7, vec![Term::Var(0), Term::Var(1)]);
    let comm_r = Term::App(7, vec![Term::Var(1), Term::Var(0)]);
    assert_eq!(classify_ac_axiom(&comm_l, &comm_r), Some((7, AcAxiomKind::Commutative)));
    assert_eq!(classify_ac_axiom(&comm_r, &comm_l), Some((7, AcAxiomKind::Commutative)));
    let assoc_l = Term::App(7, vec![Term::App(7, vec![Term::Var(0), Term::Var(1)]), Term::Var(2)]);
    let assoc_r = Term::App(7, vec![Term::Var(0), Term::App(7, vec![Term::Var(1), Term::Var(2)])]);
    assert_eq!(classify_ac_axiom(&assoc_r, &assoc_l), Some((7, AcAxiomKind::Associative)));
    let same = Term::App(7, vec![Term::Var(0), Term::Var(0)]);
    assert_eq!(classify_ac_axiom(&same, &same), None);
}
