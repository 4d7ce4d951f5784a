use biwac::ast::{BinOperator, UnOperator, VariantShape};

#[test]
fn operators_print_as_written() {
    let all = [
        (BinOperator::Add, "+"),
        (BinOperator::Sub, "-"),
        (BinOperator::Mul, "*"),
        (BinOperator::Div, "/"),
        (BinOperator::Mod, "%"),
        (BinOperator::Gt, ">"),
        (BinOperator::Lt, "<"),
        (BinOperator::Ge, ">="),
        (BinOperator::Le, "<="),
        (BinOperator::Eq, "=="),
        (BinOperator::Ne, "!="),
    ];
    for (op, text) in all {
        assert_eq!(op.as_str(), text);
    }
    assert_eq!(UnOperator::Neg.as_str(), "-");
}

#[test]
fn variant_shapes_print() {
    assert_eq!(VariantShape::Unit.as_str(), "unit");
    assert_eq!(VariantShape::Tuple.as_str(), "tuple");
    assert_eq!(VariantShape::Struct.as_str(), "struct");
}
