use nemesis::checker::{checked_gpu_count, counts_checkable, type_check};
use nemesis::parser::parse;

#[test]
fn tp8_nvl12_is_valid() {
    let spec = parse("TP8_NVL12").unwrap();
    let errors = type_check(&spec);
    assert!(errors.is_empty(), "errors: {errors:?}");
}

#[test]
fn tp3_is_invalid_not_power_of_two() {
    let spec = parse("TP3_NVL12").unwrap();
    let errors = type_check(&spec);
    assert!(
        errors.iter().any(|e| e.contains("power of 2")),
        "expected power-of-2 error, got: {errors:?}"
    );
}

#[test]
fn tp16_is_invalid_exceeds_nvlink_max() {
    let spec = parse("TP16_NVL12").unwrap();
    let errors = type_check(&spec);
    assert!(
        errors.iter().any(|e| e.contains("NVLink mesh maximum")),
        "expected NVLink max error, got: {errors:?}"
    );
}

#[test]
fn disjunction_mismatched_gpu_count_is_invalid() {
    let spec = parse("TP8_NVL12|TP4_NVL12").unwrap();
    let errors = type_check(&spec);
    assert!(
        errors.iter().any(|e| e.contains("gpu_count")),
        "expected gpu_count mismatch error, got: {errors:?}"
    );
}

#[test]
fn disjunction_same_gpu_count_is_valid() {
    let spec = parse("TP8_NVL12|TP8_NVL6").unwrap();
    let errors = type_check(&spec);
    assert!(errors.is_empty(), "errors: {errors:?}");
}

#[test]
fn type_errors_have_exact_messages() {
    let errors = type_check(&parse("TP3").unwrap());
    assert_eq!(errors, vec!["TP degree 3 must be a power of 2 (e.g. 1, 2, 4, 8, 16 …)".to_string()]);
    let errors = type_check(&parse("TP16_NVL12").unwrap());
    assert_eq!(
        errors,
        vec!["TP16 with NVLink constraint exceeds NVLink mesh maximum of 8 GPUs per NVSwitch domain".to_string()]
    );
    let errors = type_check(&parse("TP8|TP4|TP4").unwrap());
    assert_eq!(errors, vec!["disjunction alternatives have mismatched gpu_count: [8, 4, 4]".to_string()]);
}

#[test]
fn counts_checkable_flags_overflowing_products() {
    let big = parse("DP65536+DP65536|DP1").unwrap();
    assert!(!counts_checkable(&big));
    let fine = parse("DP256+DP256|DP65536").unwrap();
    assert!(counts_checkable(&fine));
    assert_eq!(checked_gpu_count(&parse("TP8+PP4").unwrap()), Some(32));
    assert_eq!(checked_gpu_count(&parse("DP65536+DP65536").unwrap()), None);
}

#[test]
fn well_typed_disjunction_alternatives_agree_on_gpu_count() {
    let spec = parse("TP8_NVL12|TP4+PP2|DP8").unwrap();
    assert!(type_check(&spec).is_empty());
    assert_eq!(spec.gpu_count(), 8);
    if let nemesis::parser::TopologySpec::Disjunction(alts) = &spec {
        for a in alts {
            assert_eq!(a.gpu_count(), 8);
        }
    } else {
        panic!("expected a disjunction");
    }
}
