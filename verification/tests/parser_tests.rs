use nemesis::parser::{parse, Constraint, ParallelDim, TopologySpec};

#[test]
fn parse_tp8_nvl12() {
    let spec = parse("TP8_NVL12").unwrap();
    match spec {
        TopologySpec::Atom(dim, constraints) => {
            assert_eq!(dim, ParallelDim::Tp(8));
            assert!(constraints.contains(&Constraint::NvlMin(12)));
        }
        _ => panic!("expected Atom"),
    }
}

#[test]
fn parse_conjunction() {
    let spec = parse("TP8_NVL12+PP4_IB2").unwrap();
    assert!(matches!(spec, TopologySpec::Conjunction(_, _)));
}

#[test]
fn parse_disjunction() {
    let spec = parse("TP8_NVL12|TP8_NVL6").unwrap();
    assert!(matches!(spec, TopologySpec::Disjunction(_)));
}

#[test]
fn parse_error_on_invalid_token() {
    assert!(parse("INVALID8").is_err());
}

#[test]
fn gpu_count_tp8() {
    let spec = parse("TP8_NVL12").unwrap();
    assert_eq!(spec.gpu_count(), 8);
}

#[test]
fn gpu_count_conjunction() {
    let spec = parse("TP8_NVL12+PP4_IB2").unwrap();
    assert_eq!(spec.gpu_count(), 32);
}

#[test]
fn parse_keeps_constraints_in_order() {
    let spec = parse("PP4_IB2_NUMA").unwrap();
    assert_eq!(
        spec,
        TopologySpec::Atom(ParallelDim::Pp(4), vec![Constraint::IbMax(2), Constraint::Numa])
    );
}

#[test]
fn parse_rejects_trailing_tokens() {
    assert!(parse("TP8 TP8").is_err() || parse("TP8TP8").is_err());
    assert!(parse("TP8+").is_err());
    assert!(parse("").is_err());
}

#[test]
fn parse_error_messages() {
    assert_eq!(parse("+"), Err("expected TP/PP/DP at position 0, got Some(Plus)".to_string()));
    assert_eq!(parse(""), Err("expected TP/PP/DP at position 0, got None".to_string()));
    assert_eq!(
        parse("TP8_NVL12_NUMA+PP4DP2"),
        Err("unexpected tokens starting at position 7: [Dp, Number(2)]".to_string())
    );
    assert_eq!(parse("TP2+PP2+"), Err("expected TP/PP/DP at position 6, got None".to_string()));
    assert_eq!(parse("TP8|"), Err("expected TP/PP/DP at position 3, got None".to_string()));
    assert_eq!(parse("XP8"), Err("unknown parallel dim XP".to_string()));
}

#[test]
fn parse_nests_conjunctions_in_disjunctions() {
    let spec = parse("TP8+PP2|DP16").unwrap();
    match spec {
        TopologySpec::Disjunction(alts) => {
            assert_eq!(alts.len(), 2);
            assert_eq!(
                alts[0],
                TopologySpec::Conjunction(
                    Box::new(TopologySpec::Atom(ParallelDim::Tp(8), vec![])),
                    Box::new(TopologySpec::Atom(ParallelDim::Pp(2), vec![]))
                )
            );
            assert_eq!(alts[1], TopologySpec::Atom(ParallelDim::Dp(16), vec![]));
        }
        _ => panic!("expected a disjunction"),
    }
}

#[test]
fn parse_chains_conjunctions_from_the_left() {
    let atom = |d: ParallelDim| Box::new(TopologySpec::Atom(d, vec![]));
    assert_eq!(
        parse("TP2+PP2+DP2"),
        Ok(TopologySpec::Conjunction(
            Box::new(TopologySpec::Conjunction(atom(ParallelDim::Tp(2)), atom(ParallelDim::Pp(2)))),
            atom(ParallelDim::Dp(2))
        ))
    );
    assert_eq!(parse("TP2+PP2+DP2").unwrap().gpu_count(), 8);
}

#[test]
fn parse_error_lists_bandwidth_tokens_as_figures() {
    assert_eq!(
        parse("TP8TP4_NVL12"),
        Err("unexpected tokens starting at position 2: [Tp, Number(4), NvlMin(12.0)]".to_string())
    );
}
