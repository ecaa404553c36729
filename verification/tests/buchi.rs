use checkr_core::buchi::{Alphabet, Buchi, BuchiNode, GeneralBuchi, Neighbors, NodeId, State};
use checkr_core::emptiness::ProductBuchi;
use checkr_core::ltl::automata::AutomataId;
use checkr_core::ltl::expression::{Literal, NnfLtl};

fn lit(s: &str) -> NnfLtl {
    NnfLtl::lit(Literal::new(s))
}

fn label_text(n: &Neighbors) -> String {
    match n {
        Neighbors::Any => "*".to_string(),
        Neighbors::Just(labels) => labels
            .iter()
            .map(|l| l.iter().map(|p| p.0.clone()).collect::<Vec<_>>().join(","))
            .collect::<Vec<_>>()
            .join(" | "),
    }
}

/// The states, transitions and initial nodes, as a `display` of the
/// automaton lists them.
fn display_nodes<S>(nodes: &[BuchiNode<S>], init: &[NodeId], fmt: &dyn Fn(&S) -> String) -> String {
    let mut order: Vec<usize> = (0..nodes.len()).collect();
    order.sort_by_key(|&i| fmt(&nodes[i].id));
    let mut out = String::from("States:\n");
    for i in order {
        out += &format!(" {} []\n", fmt(&nodes[i].id));
        for (to, labels) in &nodes[i].adj {
            out += &format!(
                "   =[{}]=> {}\n",
                label_text(labels),
                fmt(&nodes[to.0 as usize].id)
            );
        }
    }
    let init: Vec<String> = init.iter().map(|s| fmt(&nodes[s.0 as usize].id)).collect();
    out += &format!("Initial: {}\n", init.join(" "));
    out
}

fn display_gba<S>(b: &GeneralBuchi<S>, fmt: &dyn Fn(&S) -> String) -> String {
    let nodes = &b.nodes.nodes;
    let mut out = display_nodes(nodes, &b.init_states, fmt);
    let acc: Vec<String> = b
        .accepting_states
        .iter()
        .map(|set| {
            let names: Vec<String> = set.iter().map(|s| fmt(&nodes[s.0 as usize].id)).collect();
            format!("{{{}}}", names.join(" "))
        })
        .collect();
    out += &format!("Accept:  [{}]\n", acc.join(", "));
    out
}

fn display_ba<S>(b: &Buchi<S>, fmt: &dyn Fn(&S) -> String) -> String {
    let nodes = &b.nodes.nodes;
    let mut out = display_nodes(nodes, &b.init_states, fmt);
    let acc: Vec<String> = b
        .accepting_states
        .iter()
        .map(|s| fmt(&nodes[s.0 as usize].id))
        .collect();
    out += &format!("Accept:  [{}]\n", acc.join(", "));
    out
}

/// The automaton of the tableau as `display` lists it.
fn display(b: &GeneralBuchi<AutomataId>) -> String {
    display_gba(b, &|s: &AutomataId| s.name())
}

fn debug_name<T: std::fmt::Debug>(s: &T) -> String {
    format!("{:?}", s)
}

/// A generalized automaton over string states: each state with its
/// transitions, each labelled by one proposition, then the initial states
/// and the accepting sets.
fn gbuchi(
    states: &[(&str, &[(&str, &str)])],
    init: &[&str],
    accepting: &[&[&str]],
) -> GeneralBuchi<String> {
    let mut props: Vec<Literal> = Vec::new();
    for (_, edges) in states {
        for (ltl, _) in *edges {
            props.push(Literal::new(ltl));
        }
    }
    let mut graph = GeneralBuchi::new(Alphabet::from_literals(&props));
    for (src, edges) in states {
        let src_id = graph.push(src.to_string());
        for (ltl, dest) in *edges {
            let dest_id = graph.push(dest.to_string());
            graph.add_transition(src_id, dest_id, Neighbors::from_literals(&vec![Literal::new(ltl)]));
        }
    }
    for s in init {
        let id = graph.get_node(&s.to_string()).unwrap();
        graph.add_init_state(id);
    }
    for set in accepting {
        let mut ids: Vec<NodeId> = set
            .iter()
            .map(|s| graph.get_node(&s.to_string()).unwrap())
            .collect();
        ids.sort_by_key(|id| id.0);
        graph.add_accepting_state(&ids);
    }
    graph
}

fn unindent(s: &str) -> String {
    s.lines()
        .filter(|l| !l.trim().is_empty())
        .map(|l| l.strip_prefix("        ").unwrap_or(l))
        .map(|l| format!("{}\n", l))
        .collect()
}

#[test]
fn it_should_extract_buchi_from_nodeset() {
    // p U q
    let ltl_expr = lit("p").U(lit("q"));

    let gbuchi = ltl_expr.gba(None);

    assert_eq!(
        display(&gbuchi),
        unindent(
            r###"
        States:
         A2 []
           =[p | p,q]=> A2
           =[p | p,q]=> A6
         A6 []
           =[p,q | q]=> A7
         A7 []
           =[*]=> A7
        Initial: A2 A6
        Accept:  [{A6 A7}]
        "###
        )
    );
}

#[test]
fn it_should_extract_buchi_from_nodeset2() {
    // p1 U (p2 U p3)
    let ltl_expr = lit("p1").U(lit("p2").U(lit("p3")));

    let gbuchi = ltl_expr.gba(None);

    assert_eq!(
        display(&gbuchi),
        unindent(
            r###"
        States:
         A10 []
           =[p1,p2 | p1,p2,p3 | p2 | p2,p3]=> A10
           =[p1,p2 | p1,p2,p3 | p2 | p2,p3]=> A14
         A14 []
           =[p1,p2,p3 | p1,p3 | p2,p3 | p3]=> A15
         A15 []
           =[*]=> A15
         A2 []
           =[p1 | p1,p2 | p1,p2,p3 | p1,p3]=> A2
           =[p1 | p1,p2 | p1,p2,p3 | p1,p3]=> A7
           =[p1 | p1,p2 | p1,p2,p3 | p1,p3]=> A8
         A7 []
           =[p1,p2 | p1,p2,p3 | p2 | p2,p3]=> A10
           =[p1,p2 | p1,p2,p3 | p2 | p2,p3]=> A14
         A8 []
           =[p1,p2,p3 | p1,p3 | p2,p3 | p3]=> A15
        Initial: A2 A7 A8
        Accept:  [{A7 A8 A10 A14 A15}, {A2 A8 A14 A15}]
        "###
        )
    );
}

#[test]
fn it_should_extract_buchi_from_nodeset3() {
    // Fp1 U Gp2
    let ltl_expr = lit("p").F().U(lit("q").G());

    let gbuchi = ltl_expr.gba(None);

    assert_eq!(
        display(&gbuchi),
        unindent(
            r###"
        States:
         A11 []
           =[p,q | q]=> A16
           =[p,q | q]=> A23
         A16 []
           =[p,q | q]=> A16
           =[p,q | q]=> A23
         A23 []
           =[p,q]=> A26
         A26 []
           =[p,q | q]=> A26
         A33 []
           =[p | p,q]=> A4
           =[p | p,q]=> A33
           =[p | p,q]=> A40
         A4 []
           =[ | p | p,q | q]=> A4
           =[ | p | p,q | q]=> A11
           =[ | p | p,q | q]=> A33
           =[ | p | p,q | q]=> A45
         A40 []
           =[p,q | q]=> A26
         A45 []
           =[p,q]=> A26
        Initial: A4 A33 A40
        Accept:  [{A33 A23 A26 A40 A45}, {A11 A16 A23 A26 A40 A45}]
        "###
        )
    );
}

#[test]
fn it_should_extract_buchi_from_nodeset4() {
    // Fp1 U Gp2
    let ltl_expr = lit("p1").G().U(lit("p2"));

    let gbuchi = ltl_expr.gba(None);

    assert_eq!(
        display(&gbuchi),
        unindent(
            r###"
        States:
         A11 []
           =[p1,p2]=> A14
         A14 []
           =[p1 | p1,p2]=> A14
         A19 []
           =[*]=> A19
         A3 []
           =[p1,p2 | p2]=> A19
         A4 []
           =[p1 | p1,p2]=> A4
           =[p1 | p1,p2]=> A11
        Initial: A3 A4
        Accept:  [{A3 A11 A14 A19}]
        "###
        )
    );
}

#[test]
fn it_should_convert_gba_into_ba() {
    let gbuchi = gbuchi(
        &[
            ("INIT", &[("a", "INIT"), ("b", "s1")]),
            ("s1", &[("a", "INIT"), ("b", "s1")]),
        ],
        &["INIT"],
        &[&["INIT"], &["s1"]],
    );

    assert_eq!(
        display_gba(&gbuchi, &debug_name),
        unindent(
            r###"
        States:
         "INIT" []
           =[a]=> "INIT"
           =[b]=> "s1"
         "s1" []
           =[a]=> "INIT"
           =[b]=> "s1"
        Initial: "INIT"
        Accept:  [{"INIT"}, {"s1"}]
        "###
        )
    );

    let buchi = gbuchi.to_buchi();

    assert_eq!(
        display_ba(&buchi, &debug_name),
        unindent(
            r###"
        States:
         ("INIT", 0) []
           =[a]=> ("INIT", 1)
           =[b]=> ("s1", 1)
         ("INIT", 1) []
           =[a]=> ("INIT", 1)
           =[b]=> ("s1", 1)
         ("s1", 0) []
           =[a]=> ("INIT", 0)
           =[b]=> ("s1", 0)
         ("s1", 1) []
           =[a]=> ("INIT", 0)
           =[b]=> ("s1", 0)
        Initial: ("INIT", 0)
        Accept:  [("INIT", 0)]
        "###
        )
    );
}

#[test]
fn it_should_convert_gba_into_ba2() {
    let gbuchi = gbuchi(
        &[
            ("INIT", &[("a", "q3"), ("b", "q2")]),
            ("q2", &[("b", "q2"), ("a", "q3")]),
            ("q3", &[("a", "q3"), ("b", "q2")]),
            ("q4", &[("a", "q3"), ("b", "q2")]),
        ],
        &["INIT"],
        &[&["INIT", "q3"], &["INIT", "q2"]],
    );

    assert_eq!(
        display_gba(&gbuchi, &debug_name),
        unindent(
            r###"
        States:
         "INIT" []
           =[a]=> "q3"
           =[b]=> "q2"
         "q2" []
           =[b]=> "q2"
           =[a]=> "q3"
         "q3" []
           =[a]=> "q3"
           =[b]=> "q2"
         "q4" []
           =[a]=> "q3"
           =[b]=> "q2"
        Initial: "INIT"
        Accept:  [{"INIT" "q3"}, {"INIT" "q2"}]
        "###
        )
    );

    let buchi = gbuchi.to_buchi();

    assert_eq!(
        display_ba(&buchi, &debug_name),
        unindent(
            r###"
        States:
         ("INIT", 0) []
           =[a]=> ("q3", 1)
           =[b]=> ("q2", 1)
         ("INIT", 1) []
           =[a]=> ("q3", 0)
           =[b]=> ("q2", 0)
         ("q2", 0) []
           =[b]=> ("q2", 0)
           =[a]=> ("q3", 0)
         ("q2", 1) []
           =[b]=> ("q2", 0)
           =[a]=> ("q3", 0)
         ("q3", 0) []
           =[a]=> ("q3", 1)
           =[b]=> ("q2", 1)
         ("q3", 1) []
           =[a]=> ("q3", 1)
           =[b]=> ("q2", 1)
         ("q4", 0) []
           =[a]=> ("q3", 0)
           =[b]=> ("q2", 0)
         ("q4", 1) []
           =[a]=> ("q3", 1)
           =[b]=> ("q2", 1)
        Initial: ("INIT", 0)
        Accept:  [("INIT", 0), ("q3", 0)]
        "###
        )
    );
}

#[test]
fn it_should_convert_gba_construct_from_ltl_into_ba() {
    // Fp1 U Gp2
    let ltl_expr = lit("p").F().U(lit("q").G());

    let gbuchi = ltl_expr.gba(None);
    let buchi = gbuchi.to_buchi();

    assert_eq!(
        display_ba(&buchi, &|s: &(AutomataId, usize)| format!("({}, {})", s.0.name(), s.1)),
        unindent(
            r###"
        States:
         (A11, 0) []
           =[p,q | q]=> (A16, 0)
           =[p,q | q]=> (A23, 0)
         (A11, 1) []
           =[p,q | q]=> (A16, 0)
           =[p,q | q]=> (A23, 0)
         (A16, 0) []
           =[p,q | q]=> (A16, 0)
           =[p,q | q]=> (A23, 0)
         (A16, 1) []
           =[p,q | q]=> (A16, 0)
           =[p,q | q]=> (A23, 0)
         (A23, 0) []
           =[p,q]=> (A26, 1)
         (A23, 1) []
           =[p,q]=> (A26, 0)
         (A26, 0) []
           =[p,q | q]=> (A26, 1)
         (A26, 1) []
           =[p,q | q]=> (A26, 0)
         (A33, 0) []
           =[p | p,q]=> (A4, 1)
           =[p | p,q]=> (A33, 1)
           =[p | p,q]=> (A40, 1)
         (A33, 1) []
           =[p | p,q]=> (A4, 1)
           =[p | p,q]=> (A33, 1)
           =[p | p,q]=> (A40, 1)
         (A4, 0) []
           =[ | p | p,q | q]=> (A4, 0)
           =[ | p | p,q | q]=> (A11, 0)
           =[ | p | p,q | q]=> (A33, 0)
           =[ | p | p,q | q]=> (A45, 0)
         (A4, 1) []
           =[ | p | p,q | q]=> (A4, 1)
           =[ | p | p,q | q]=> (A11, 1)
           =[ | p | p,q | q]=> (A33, 1)
           =[ | p | p,q | q]=> (A45, 1)
         (A40, 0) []
           =[p,q | q]=> (A26, 1)
         (A40, 1) []
           =[p,q | q]=> (A26, 0)
         (A45, 0) []
           =[p,q]=> (A26, 1)
         (A45, 1) []
           =[p,q]=> (A26, 0)
        Initial: (A4, 0) (A33, 0) (A40, 0)
        Accept:  [(A33, 0), (A23, 0), (A26, 0), (A40, 0), (A45, 0)]
    "###
        )
    );
}

/// A Büchi automaton over string states: each state with its transitions,
/// each labelled by one proposition, then the initial and accepting states.
fn buchi(states: &[(&str, &[(&str, &str)])], init: &[&str], accepting: &[&str]) -> Buchi<String> {
    let mut props: Vec<Literal> = Vec::new();
    for (_, edges) in states {
        for (ltl, _) in *edges {
            props.push(Literal::new(ltl));
        }
    }
    let mut graph = Buchi::new(Alphabet::from_literals(&props));
    for (src, edges) in states {
        let src_id = graph.push(src.to_string());
        for (ltl, dest) in *edges {
            let dest_id = graph.push(dest.to_string());
            graph.add_transition(src_id, dest_id, Neighbors::from_literals(&vec![Literal::new(ltl)]));
        }
    }
    for s in init {
        let id = graph.get_node(&s.to_string()).unwrap();
        graph.add_init_state(id);
    }
    for s in accepting {
        let id = graph.get_node(&s.to_string()).unwrap();
        graph.add_accepting_state(id);
    }
    graph
}

#[test]
fn it_should_found_non_empty() {
    let buchi = buchi(
        &[
            ("q0", &[("a", "q1")]),
            ("q1", &[("b", "q2")]),
            ("q2", &[("e", "q3"), ("c", "q4")]),
            ("q3", &[("f", "q1")]),
            ("q4", &[("d", "q3")]),
        ],
        &["q0"],
        &["q1"],
    );

    assert_eq!(
        display_ba(&buchi, &debug_name),
        unindent(
            r###"
        States:
         "q0" []
           =[a]=> "q1"
         "q1" []
           =[b]=> "q2"
         "q2" []
           =[e]=> "q3"
           =[c]=> "q4"
         "q3" []
           =[f]=> "q1"
         "q4" []
           =[d]=> "q3"
        Initial: "q0"
        Accept:  ["q1"]
        "###
        )
    );

    let res = buchi.find_accepting_cycle();

    let cycle = res.unwrap();

    assert_eq!(4, cycle.len());
}

#[test]
fn it_should_found_empty_because_the_cycle_doesnt_contain_an_accepting_state() {
    let buchi = buchi(
        &[
            ("q0", &[("a", "q1")]),
            ("q1", &[("b", "q2")]),
            ("q2", &[("e", "q3"), ("c", "q4")]),
            ("q3", &[]),
            ("q4", &[("d", "q3")]),
        ],
        &["q0"],
        &["q1"],
    );

    assert_eq!(
        display_ba(&buchi, &debug_name),
        unindent(
            r###"
        States:
         "q0" []
           =[a]=> "q1"
         "q1" []
           =[b]=> "q2"
         "q2" []
           =[e]=> "q3"
           =[c]=> "q4"
         "q3" []
         "q4" []
           =[d]=> "q3"
        Initial: "q0"
        Accept:  ["q1"]
        "###
        )
    );

    let res = buchi.find_accepting_cycle();

    assert_eq!(res, None);
}

#[test]
fn it_should_found_emptiness() {
    let buchi = buchi(&[("q0", &[("a", "q1")]), ("q1", &[])], &["q0"], &["q0", "q1"]);

    assert_eq!(
        display_ba(&buchi, &debug_name),
        unindent(
            r###"
        States:
         "q0" []
           =[a]=> "q1"
         "q1" []
        Initial: "q0"
        Accept:  ["q0", "q1"]
        "###
        )
    );

    let res = buchi.find_accepting_cycle();

    assert_eq!(res, None);
}

#[test]
fn product_of_automata_without_common_accepting_cycle() {
    let buchi1 = buchi(
        &[("INIT", &[("a", "INIT"), ("b", "r2")]), ("r2", &[("b", "r2"), ("a", "INIT")])],
        &["INIT"],
        &["INIT"],
    );
    let buchi2 = buchi(
        &[("INIT", &[("b", "INIT"), ("a", "q2")]), ("q2", &[("a", "q2"), ("b", "INIT")])],
        &["INIT"],
        &["INIT"],
    );
    let product = ProductBuchi::new(&buchi1, &buchi2);
    assert_eq!(product.find_accepting_cycle(), None);
}

#[test]
fn product_of_automata_with_common_accepting_cycle() {
    let buchi1 = buchi(&[("s", &[("a", "s")])], &["s"], &["s"]);
    let buchi2 = buchi(&[("t", &[("a", "u")]), ("u", &[("a", "t")])], &["t"], &["t"]);
    let product = ProductBuchi::new(&buchi1, &buchi2);
    let cycle = product.find_accepting_cycle().unwrap();
    // the search reaches (s, t) again through (s, u), then finds the cycle
    // (s, t) -> (s, u) -> (s, t) from the accepting pair
    assert_eq!(cycle.s1, vec![(NodeId(0), NodeId(0)), (NodeId(0), NodeId(1))]);
    assert_eq!(cycle.s2, vec![(NodeId(0), NodeId(0)), (NodeId(0), NodeId(1))]);
    assert_eq!(cycle.len(), 4);
}

/// The product as its `display` lists it: the reachable pairs in the order
/// of their text, each with its transitions, then the initial and the
/// accepting pairs.
fn display_product(p: &ProductBuchi<String, String>) -> String {
    let name = |x: &(NodeId, NodeId)| format!("({:?}, {:?})", p.a.id(x.0), p.b.id(x.1));
    let mut nodes = p.nodes();
    nodes.sort_by_key(|x| name(x));
    let mut out = String::from("States:\n");
    for x in &nodes {
        out += &format!(" {} []\n", name(x));
        for (to, labels) in p.adj_labels(*x) {
            out += &format!("   =[{}]=> {}\n", label_text(&labels), name(&to));
        }
    }
    let init: Vec<String> = p.init_states().iter().map(|x| name(x)).collect();
    out += &format!("Initial: {}\n", init.join(" "));
    let acc: Vec<String> = p.accepting_states().iter().map(|x| name(x)).collect();
    out += &format!("Accept:  [{}]\n", acc.join(", "));
    out
}

#[test]
fn it_should_do_product_of_automata() {
    let alphabet = || Alphabet::from_literals(&vec![Literal::new("a"), Literal::new("b")]);
    let label = |s: &str| Neighbors::from_literals(&vec![Literal::new(s)]);

    let mut buchi1: Buchi<String> = Buchi::new(alphabet());
    let r1 = buchi1.push("INIT".into());
    let r2 = buchi1.push("r2".into());

    buchi1.add_transition(r1, r1, label("a"));
    buchi1.add_transition(r1, r2, label("b"));

    buchi1.add_transition(r2, r2, label("b"));
    buchi1.add_transition(r2, r1, label("a"));

    buchi1.add_accepting_state(r1);
    buchi1.add_init_state(r1);

    assert_eq!(
        display_ba(&buchi1, &debug_name),
        unindent(
            r###"
        States:
         "INIT" []
           =[a]=> "INIT"
           =[b]=> "r2"
         "r2" []
           =[b]=> "r2"
           =[a]=> "INIT"
        Initial: "INIT"
        Accept:  ["INIT"]
        "###
        )
    );

    let mut buchi2: Buchi<String> = Buchi::new(alphabet());
    let q1 = buchi2.push("INIT".into());
    let q2 = buchi2.push("q2".into());

    buchi2.add_transition(q1, q1, label("b"));
    buchi2.add_transition(q1, q2, label("a"));

    buchi2.add_transition(q2, q2, label("a"));
    buchi2.add_transition(q2, q1, label("b"));

    buchi2.add_accepting_state(q1);
    buchi2.add_init_state(q1);

    assert_eq!(
        display_ba(&buchi2, &debug_name),
        unindent(
            r###"
        States:
         "INIT" []
           =[b]=> "INIT"
           =[a]=> "q2"
         "q2" []
           =[a]=> "q2"
           =[b]=> "INIT"
        Initial: "INIT"
        Accept:  ["INIT"]
        "###
        )
    );

    let buchi_product = buchi1.product(&buchi2);

    assert_eq!(
        display_product(&buchi_product),
        unindent(
            r###"
        States:
         ("INIT", "INIT") []
           =[a]=> ("INIT", "q2")
           =[b]=> ("r2", "INIT")
         ("INIT", "q2") []
           =[a]=> ("INIT", "q2")
           =[b]=> ("r2", "INIT")
         ("r2", "INIT") []
           =[b]=> ("r2", "INIT")
           =[a]=> ("INIT", "q2")
        Initial: ("INIT", "INIT")
        Accept:  [("INIT", "INIT")]
        "###
        )
    );
}

#[test]
fn dead_ends_get_a_self_loop_labelled_by_what_leads_into_them() {
    // q0 -a-> q1, q0 -b-> q1, q1 has no transition
    let mut b = buchi(&[("q0", &[("a", "q1")]), ("q1", &[])], &["q0"], &["q1"]);
    let q0 = b.get_node(&"q0".to_string()).unwrap();
    let q1 = b.get_node(&"q1".to_string()).unwrap();
    b.add_transition(q0, q1, Neighbors::from_literals(&vec![Literal::new("a")]).union(
        &Neighbors::from_literals(&vec![Literal::new("b")]),
    ));
    b.add_necessary_self_loops();
    assert_eq!(
        display_ba(&b, &debug_name),
        unindent(
            r###"
        States:
         "q0" []
           =[a | b]=> "q1"
         "q1" []
           =[a | b]=> "q1"
        Initial: "q0"
        Accept:  ["q1"]
        "###
        )
    );
}

#[test]
fn product_successors_and_reachable_pairs() {
    let a = buchi(&[("p0", &[("a", "p1")]), ("p1", &[("a", "p1")])], &["p0"], &["p1"]);
    let b = buchi(&[("q0", &[("a", "q0"), ("b", "q1")]), ("q1", &[("b", "q1")])], &["q0"], &["q0"]);
    let p = a.product(&b);
    let start = (NodeId(0), NodeId(0));
    // p0 -a-> p1 only meets q0 -a-> q0
    assert_eq!(p.adj_ids(start), vec![(NodeId(1), NodeId(0))]);
    let mut nodes = p.nodes();
    nodes.sort_by_key(|x| (x.0 .0, x.1 .0));
    assert_eq!(nodes, vec![(NodeId(0), NodeId(0)), (NodeId(1), NodeId(0))]);
    assert_eq!(p.init_states(), vec![start]);
    assert_eq!(p.accepting_states(), vec![(NodeId(1), NodeId(0))]);
}

#[test]
fn pruning_keeps_what_the_initial_nodes_lead_to() {
    let b = buchi(
        &[("q0", &[("a", "q1")]), ("q1", &[]), ("q2", &[("b", "q0")])],
        &["q0"],
        &["q1", "q2"],
    );
    let p = b.pruned();
    assert_eq!(
        display_ba(&p, &debug_name),
        unindent(
            r###"
        States:
         "q0" []
           =[a]=> "q1"
         "q1" []
        Initial: "q0"
        Accept:  ["q1"]
        "###
        )
    );
    assert_eq!(p.nodes.nodes.len(), 2);
}

fn ba_names(b: &Buchi<String>) -> Vec<String> {
    b.nodes.nodes.iter().map(|n| debug_name(&n.id)).collect()
}

#[test]
fn display_lists_nodes_by_name() {
    let b = buchi(
        &[
            ("q2", &[("e", "q3"), ("c", "q0")]),
            ("q0", &[("a", "q1")]),
            ("q1", &[("b", "q2")]),
            ("q3", &[]),
        ],
        &["q0"],
        &["q1", "q3"],
    );
    let text = b.display(&ba_names(&b));
    assert_eq!(text, display_ba(&b, &debug_name));
    assert_eq!(
        text,
        unindent(
            r###"
        States:
         "q0" []
           =[a]=> "q1"
         "q1" []
           =[b]=> "q2"
         "q2" []
           =[e]=> "q3"
           =[c]=> "q0"
         "q3" []
        Initial: "q0"
        Accept:  ["q3", "q1"]
        "###
        )
    );
}

#[test]
fn state_names_follow_the_kind_of_state() {
    assert_eq!(AutomataId(0).name(), "A0i");
    assert_eq!(AutomataId(12).name(), "A12");
    assert_eq!(State::name(&305usize), "305");
    assert_eq!(String::from("q1").name(), "q1");
    assert_eq!((AutomataId(3), 7usize).name(), "A3#7");
}
