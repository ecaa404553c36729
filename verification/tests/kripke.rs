use checkr_core::buchi::NodeId;
use checkr_core::kripke::KripkeStructure;
use checkr_core::ltl::expression::Literal;

fn props(names: &[&str]) -> Vec<Literal> {
    names.iter().map(|n| Literal::new(n)).collect()
}

/// A Kripke structure over string worlds: the worlds with their
/// propositions, the pairs of the relation and the initial worlds.
fn kripke(
    worlds: &[(&str, &[&str])],
    relations: &[(&str, &str)],
    init: &[&str],
) -> KripkeStructure<String> {
    let mut k = KripkeStructure::new(init.iter().map(|s| s.to_string()).collect());
    let mut ids: Vec<(String, NodeId)> = Vec::new();
    for (w, ps) in worlds {
        let id = k.add_node(w.to_string(), props(ps));
        ids.push((w.to_string(), id));
    }
    let find = |name: &str| ids.iter().find(|(n, _)| n == name).unwrap().1;
    for (a, b) in relations {
        k.add_relation(find(a), find(b));
    }
    k
}

#[test]
fn it_should_compute_nba_from_kripke_struct() {
    let kripke = kripke(
        &[("n1", &["p", "q"]), ("n2", &["p"]), ("n3", &["q"])],
        &[("n1", "n2"), ("n2", "n1"), ("n2", "n3"), ("n3", "n1")],
        &["n1", "n2"],
    );

    let buchi = kripke.to_buchi(None);

    assert_eq!(4, buchi.accepting_states.len());
    assert_eq!(1, buchi.init_states.len());
    assert_eq!(4, buchi.nodes.nodes.len());
}

#[test]
fn it_should_compute_nba_from_kripke_struct2() {
    let kripke = kripke(
        &[("n1", &["a"]), ("n2", &["b"]), ("n3", &["c"])],
        &[("n1", "n2"), ("n2", "n3"), ("n3", "n1")],
        &["n1"],
    );

    let buchi = kripke.to_buchi(None);

    assert_eq!(4, buchi.accepting_states.len());
    assert_eq!(1, buchi.init_states.len());
    assert_eq!(4, buchi.nodes.nodes.len());
}
