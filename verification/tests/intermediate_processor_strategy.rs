use elk_layered::intermediate_processor_strategy::IntermediateProcessorStrategy;

#[test]
fn variants_list_every_strategy_in_order() {
    let v = IntermediateProcessorStrategy::variants();
    assert_eq!(v.len(), 58);
    assert_eq!(v[0], IntermediateProcessorStrategy::DirectionPreprocessor);
    assert_eq!(v[57], IntermediateProcessorStrategy::DirectionPostprocessor);
    for (i, s) in v.iter().enumerate() {
        assert_eq!(s.enum_ordinal(), Some(i));
    }
}

#[test]
fn enum_ordinal_of_some_strategies() {
    assert_eq!(IntermediateProcessorStrategy::CommentPreprocessor.enum_ordinal(), Some(1));
    assert_eq!(IntermediateProcessorStrategy::HyperedgeDummyMerger.enum_ordinal(), Some(38));
    assert_eq!(IntermediateProcessorStrategy::EndLabelSorter.enum_ordinal(), Some(53));
}

#[test]
fn strategies_order_by_their_ordinals() {
    let v = IntermediateProcessorStrategy::variants();
    for a in v.iter() {
        for b in v.iter() {
            assert_eq!(a < b, a.enum_ordinal() < b.enum_ordinal());
            assert_eq!(a.cmp(b), a.enum_ordinal().cmp(&b.enum_ordinal()));
        }
    }
    let mut set = std::collections::HashSet::new();
    for s in v.iter() {
        assert!(set.insert(*s));
    }
    assert_eq!(set.len(), v.len());
}
