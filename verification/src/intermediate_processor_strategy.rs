//! The intermediate processors that can be run between the phases of the
//! layered algorithm, in the order in which they run.
use vstd::prelude::*;

verus! {

/// An intermediate processor; the declaration order is the order in which
/// the processors run.
#[derive(Clone, Copy, Debug, PartialEq, Eq, Structural, Hash, PartialOrd, Ord)]
pub enum IntermediateProcessorStrategy {
    DirectionPreprocessor,
    CommentPreprocessor,
    EdgeAndLayerConstraintEdgeReverser,
    InteractiveExternalPortPositioner,
    PartitionPreprocessor,
    LabelDummyInserter,
    SelfLoopPreprocessor,
    LayerConstraintPreprocessor,
    PartitionMidprocessor,
    HighDegreeNodeLayerProcessor,
    NodePromotion,
    LayerConstraintPostprocessor,
    PartitionPostprocessor,
    HierarchicalPortConstraintProcessor,
    SemiInteractiveCrossminProcessor,
    BreakingPointInserter,
    LongEdgeSplitter,
    PortSideProcessor,
    InvertedPortProcessor,
    PortListSorter,
    SortByInputOrderOfModel,
    NorthSouthPortPreprocessor,
    BreakingPointProcessor,
    OneSidedGreedySwitch,
    TwoSidedGreedySwitch,
    SelfLoopPortRestorer,
    AlternatingLayerUnzipper,
    SingleEdgeGraphWrapper,
    InLayerConstraintProcessor,
    EndNodePortLabelManagementProcessor,
    LabelAndNodeSizeProcessor,
    InnermostNodeMarginCalculator,
    SelfLoopRouter,
    CommentNodeMarginCalculator,
    EndLabelPreprocessor,
    LabelDummySwitcher,
    CenterLabelManagementProcessor,
    LabelSideSelector,
    HyperedgeDummyMerger,
    HierarchicalPortDummySizeProcessor,
    LayerSizeAndGraphHeightCalculator,
    HierarchicalPortPositionProcessor,
    ConstraintsPostprocessor,
    CommentPostprocessor,
    HypernodeProcessor,
    HierarchicalPortOrthogonalEdgeRouter,
    LongEdgeJoiner,
    SelfLoopPostprocessor,
    BreakingPointRemover,
    NorthSouthPortPostprocessor,
    HorizontalCompactor,
    LabelDummyRemover,
    FinalSplineBendpointsCalculator,
    EndLabelSorter,
    ReversedEdgeRestorer,
    EndLabelPostprocessor,
    HierarchicalNodeResizer,
    DirectionPostprocessor,
}

/// The position of a strategy in the running order.
pub open spec fn spec_ordinal(s: IntermediateProcessorStrategy) -> nat {
    match s {
        IntermediateProcessorStrategy::DirectionPreprocessor => 0,
        IntermediateProcessorStrategy::CommentPreprocessor => 1,
        IntermediateProcessorStrategy::EdgeAndLayerConstraintEdgeReverser => 2,
        IntermediateProcessorStrategy::InteractiveExternalPortPositioner => 3,
        IntermediateProcessorStrategy::PartitionPreprocessor => 4,
        IntermediateProcessorStrategy::LabelDummyInserter => 5,
        IntermediateProcessorStrategy::SelfLoopPreprocessor => 6,
        IntermediateProcessorStrategy::LayerConstraintPreprocessor => 7,
        IntermediateProcessorStrategy::PartitionMidprocessor => 8,
        IntermediateProcessorStrategy::HighDegreeNodeLayerProcessor => 9,
        IntermediateProcessorStrategy::NodePromotion => 10,
        IntermediateProcessorStrategy::LayerConstraintPostprocessor => 11,
        IntermediateProcessorStrategy::PartitionPostprocessor => 12,
        IntermediateProcessorStrategy::HierarchicalPortConstraintProcessor => 13,
        IntermediateProcessorStrategy::SemiInteractiveCrossminProcessor => 14,
        IntermediateProcessorStrategy::BreakingPointInserter => 15,
        IntermediateProcessorStrategy::LongEdgeSplitter => 16,
        IntermediateProcessorStrategy::PortSideProcessor => 17,
        IntermediateProcessorStrategy::InvertedPortProcessor => 18,
        IntermediateProcessorStrategy::PortListSorter => 19,
        IntermediateProcessorStrategy::SortByInputOrderOfModel => 20,
        IntermediateProcessorStrategy::NorthSouthPortPreprocessor => 21,
        IntermediateProcessorStrategy::BreakingPointProcessor => 22,
        IntermediateProcessorStrategy::OneSidedGreedySwitch => 23,
        IntermediateProcessorStrategy::TwoSidedGreedySwitch => 24,
        IntermediateProcessorStrategy::SelfLoopPortRestorer => 25,
        IntermediateProcessorStrategy::AlternatingLayerUnzipper => 26,
        IntermediateProcessorStrategy::SingleEdgeGraphWrapper => 27,
        IntermediateProcessorStrategy::InLayerConstraintProcessor => 28,
        IntermediateProcessorStrategy::EndNodePortLabelManagementProcessor => 29,
        IntermediateProcessorStrategy::LabelAndNodeSizeProcessor => 30,
        IntermediateProcessorStrategy::InnermostNodeMarginCalculator => 31,
        IntermediateProcessorStrategy::SelfLoopRouter => 32,
        IntermediateProcessorStrategy::CommentNodeMarginCalculator => 33,
        IntermediateProcessorStrategy::EndLabelPreprocessor => 34,
        IntermediateProcessorStrategy::LabelDummySwitcher => 35,
        IntermediateProcessorStrategy::CenterLabelManagementProcessor => 36,
        IntermediateProcessorStrategy::LabelSideSelector => 37,
        IntermediateProcessorStrategy::HyperedgeDummyMerger => 38,
        IntermediateProcessorStrategy::HierarchicalPortDummySizeProcessor => 39,
        IntermediateProcessorStrategy::LayerSizeAndGraphHeightCalculator => 40,
        IntermediateProcessorStrategy::HierarchicalPortPositionProcessor => 41,
        IntermediateProcessorStrategy::ConstraintsPostprocessor => 42,
        IntermediateProcessorStrategy::CommentPostprocessor => 43,
        IntermediateProcessorStrategy::HypernodeProcessor => 44,
        IntermediateProcessorStrategy::HierarchicalPortOrthogonalEdgeRouter => 45,
        IntermediateProcessorStrategy::LongEdgeJoiner => 46,
        IntermediateProcessorStrategy::SelfLoopPostprocessor => 47,
        IntermediateProcessorStrategy::BreakingPointRemover => 48,
        IntermediateProcessorStrategy::NorthSouthPortPostprocessor => 49,
        IntermediateProcessorStrategy::HorizontalCompactor => 50,
        IntermediateProcessorStrategy::LabelDummyRemover => 51,
        IntermediateProcessorStrategy::FinalSplineBendpointsCalculator => 52,
        IntermediateProcessorStrategy::EndLabelSorter => 53,
        IntermediateProcessorStrategy::ReversedEdgeRestorer => 54,
        IntermediateProcessorStrategy::EndLabelPostprocessor => 55,
        IntermediateProcessorStrategy::HierarchicalNodeResizer => 56,
        IntermediateProcessorStrategy::DirectionPostprocessor => 57,
    }
}

/// All strategies in running order.
pub open spec fn all_variants() -> Seq<IntermediateProcessorStrategy> {
    seq![
        IntermediateProcessorStrategy::DirectionPreprocessor,
        IntermediateProcessorStrategy::CommentPreprocessor,
        IntermediateProcessorStrategy::EdgeAndLayerConstraintEdgeReverser,
        IntermediateProcessorStrategy::InteractiveExternalPortPositioner,
        IntermediateProcessorStrategy::PartitionPreprocessor,
        IntermediateProcessorStrategy::LabelDummyInserter,
        IntermediateProcessorStrategy::SelfLoopPreprocessor,
        IntermediateProcessorStrategy::LayerConstraintPreprocessor,
        IntermediateProcessorStrategy::PartitionMidprocessor,
        IntermediateProcessorStrategy::HighDegreeNodeLayerProcessor,
        IntermediateProcessorStrategy::NodePromotion,
        IntermediateProcessorStrategy::LayerConstraintPostprocessor,
        IntermediateProcessorStrategy::PartitionPostprocessor,
        IntermediateProcessorStrategy::HierarchicalPortConstraintProcessor,
        IntermediateProcessorStrategy::SemiInteractiveCrossminProcessor,
        IntermediateProcessorStrategy::BreakingPointInserter,
        IntermediateProcessorStrategy::LongEdgeSplitter,
        IntermediateProcessorStrategy::PortSideProcessor,
        IntermediateProcessorStrategy::InvertedPortProcessor,
        IntermediateProcessorStrategy::PortListSorter,
        IntermediateProcessorStrategy::SortByInputOrderOfModel,
        IntermediateProcessorStrategy::NorthSouthPortPreprocessor,
        IntermediateProcessorStrategy::BreakingPointProcessor,
        IntermediateProcessorStrategy::OneSidedGreedySwitch,
        IntermediateProcessorStrategy::TwoSidedGreedySwitch,
        IntermediateProcessorStrategy::SelfLoopPortRestorer,
        IntermediateProcessorStrategy::AlternatingLayerUnzipper,
        IntermediateProcessorStrategy::SingleEdgeGraphWrapper,
        IntermediateProcessorStrategy::InLayerConstraintProcessor,
        IntermediateProcessorStrategy::EndNodePortLabelManagementProcessor,
        IntermediateProcessorStrategy::LabelAndNodeSizeProcessor,
        IntermediateProcessorStrategy::InnermostNodeMarginCalculator,
        IntermediateProcessorStrategy::SelfLoopRouter,
        IntermediateProcessorStrategy::CommentNodeMarginCalculator,
        IntermediateProcessorStrategy::EndLabelPreprocessor,
        IntermediateProcessorStrategy::LabelDummySwitcher,
        IntermediateProcessorStrategy::CenterLabelManagementProcessor,
        IntermediateProcessorStrategy::LabelSideSelector,
        IntermediateProcessorStrategy::HyperedgeDummyMerger,
        IntermediateProcessorStrategy::HierarchicalPortDummySizeProcessor,
        IntermediateProcessorStrategy::LayerSizeAndGraphHeightCalculator,
        IntermediateProcessorStrategy::HierarchicalPortPositionProcessor,
        IntermediateProcessorStrategy::ConstraintsPostprocessor,
        IntermediateProcessorStrategy::CommentPostprocessor,
        IntermediateProcessorStrategy::HypernodeProcessor,
        IntermediateProcessorStrategy::HierarchicalPortOrthogonalEdgeRouter,
        IntermediateProcessorStrategy::LongEdgeJoiner,
        IntermediateProcessorStrategy::SelfLoopPostprocessor,
        IntermediateProcessorStrategy::BreakingPointRemover,
        IntermediateProcessorStrategy::NorthSouthPortPostprocessor,
        IntermediateProcessorStrategy::HorizontalCompactor,
        IntermediateProcessorStrategy::LabelDummyRemover,
        IntermediateProcessorStrategy::FinalSplineBendpointsCalculator,
        IntermediateProcessorStrategy::EndLabelSorter,
        IntermediateProcessorStrategy::ReversedEdgeRestorer,
        IntermediateProcessorStrategy::EndLabelPostprocessor,
        IntermediateProcessorStrategy::HierarchicalNodeResizer,
        IntermediateProcessorStrategy::DirectionPostprocessor,
    ]
}

impl IntermediateProcessorStrategy {
    /// All strategies in running order.
    pub fn variants() -> (res: Vec<IntermediateProcessorStrategy>)
        ensures
            res@ == all_variants(),
    {
        let res = vec![
            IntermediateProcessorStrategy::DirectionPreprocessor,
            IntermediateProcessorStrategy::CommentPreprocessor,
            IntermediateProcessorStrategy::EdgeAndLayerConstraintEdgeReverser,
            IntermediateProcessorStrategy::InteractiveExternalPortPositioner,
            IntermediateProcessorStrategy::PartitionPreprocessor,
            IntermediateProcessorStrategy::LabelDummyInserter,
            IntermediateProcessorStrategy::SelfLoopPreprocessor,
            IntermediateProcessorStrategy::LayerConstraintPreprocessor,
            IntermediateProcessorStrategy::PartitionMidprocessor,
            IntermediateProcessorStrategy::HighDegreeNodeLayerProcessor,
            IntermediateProcessorStrategy::NodePromotion,
            IntermediateProcessorStrategy::LayerConstraintPostprocessor,
            IntermediateProcessorStrategy::PartitionPostprocessor,
            IntermediateProcessorStrategy::HierarchicalPortConstraintProcessor,
            IntermediateProcessorStrategy::SemiInteractiveCrossminProcessor,
            IntermediateProcessorStrategy::BreakingPointInserter,
            IntermediateProcessorStrategy::LongEdgeSplitter,
            IntermediateProcessorStrategy::PortSideProcessor,
            IntermediateProcessorStrategy::InvertedPortProcessor,
            IntermediateProcessorStrategy::PortListSorter,
            IntermediateProcessorStrategy::SortByInputOrderOfModel,
            IntermediateProcessorStrategy::NorthSouthPortPreprocessor,
            IntermediateProcessorStrategy::BreakingPointProcessor,
            IntermediateProcessorStrategy::OneSidedGreedySwitch,
            IntermediateProcessorStrategy::TwoSidedGreedySwitch,
            IntermediateProcessorStrategy::SelfLoopPortRestorer,
            IntermediateProcessorStrategy::AlternatingLayerUnzipper,
            IntermediateProcessorStrategy::SingleEdgeGraphWrapper,
            IntermediateProcessorStrategy::InLayerConstraintProcessor,
            IntermediateProcessorStrategy::EndNodePortLabelManagementProcessor,
            IntermediateProcessorStrategy::LabelAndNodeSizeProcessor,
            IntermediateProcessorStrategy::InnermostNodeMarginCalculator,
            IntermediateProcessorStrategy::SelfLoopRouter,
            IntermediateProcessorStrategy::CommentNodeMarginCalculator,
            IntermediateProcessorStrategy::EndLabelPreprocessor,
            IntermediateProcessorStrategy::LabelDummySwitcher,
            IntermediateProcessorStrategy::CenterLabelManagementProcessor,
            IntermediateProcessorStrategy::LabelSideSelector,
            IntermediateProcessorStrategy::HyperedgeDummyMerger,
            IntermediateProcessorStrategy::HierarchicalPortDummySizeProcessor,
            IntermediateProcessorStrategy::LayerSizeAndGraphHeightCalculator,
            IntermediateProcessorStrategy::HierarchicalPortPositionProcessor,
            IntermediateProcessorStrategy::ConstraintsPostprocessor,
            IntermediateProcessorStrategy::CommentPostprocessor,
            IntermediateProcessorStrategy::HypernodeProcessor,
            IntermediateProcessorStrategy::HierarchicalPortOrthogonalEdgeRouter,
            IntermediateProcessorStrategy::LongEdgeJoiner,
            IntermediateProcessorStrategy::SelfLoopPostprocessor,
            IntermediateProcessorStrategy::BreakingPointRemover,
            IntermediateProcessorStrategy::NorthSouthPortPostprocessor,
            IntermediateProcessorStrategy::HorizontalCompactor,
            IntermediateProcessorStrategy::LabelDummyRemover,
            IntermediateProcessorStrategy::FinalSplineBendpointsCalculator,
            IntermediateProcessorStrategy::EndLabelSorter,
            IntermediateProcessorStrategy::ReversedEdgeRestorer,
            IntermediateProcessorStrategy::EndLabelPostprocessor,
            IntermediateProcessorStrategy::HierarchicalNodeResizer,
            IntermediateProcessorStrategy::DirectionPostprocessor,
        ];
        assert(res@ =~= all_variants());
        res
    }

    /// The position of this strategy in the running order.
    pub fn enum_ordinal(&self) -> (res: Option<usize>)
        ensures
            res == Some(spec_ordinal(*self) as usize),
    {
        match self {
            IntermediateProcessorStrategy::DirectionPreprocessor => Some(0),
            IntermediateProcessorStrategy::CommentPreprocessor => Some(1),
            IntermediateProcessorStrategy::EdgeAndLayerConstraintEdgeReverser => Some(2),
            IntermediateProcessorStrategy::InteractiveExternalPortPositioner => Some(3),
            IntermediateProcessorStrategy::PartitionPreprocessor => Some(4),
            IntermediateProcessorStrategy::LabelDummyInserter => Some(5),
            IntermediateProcessorStrategy::SelfLoopPreprocessor => Some(6),
            IntermediateProcessorStrategy::LayerConstraintPreprocessor => Some(7),
            IntermediateProcessorStrategy::PartitionMidprocessor => Some(8),
            IntermediateProcessorStrategy::HighDegreeNodeLayerProcessor => Some(9),
            IntermediateProcessorStrategy::NodePromotion => Some(10),
            IntermediateProcessorStrategy::LayerConstraintPostprocessor => Some(11),
            IntermediateProcessorStrategy::PartitionPostprocessor => Some(12),
            IntermediateProcessorStrategy::HierarchicalPortConstraintProcessor => Some(13),
            IntermediateProcessorStrategy::SemiInteractiveCrossminProcessor => Some(14),
            IntermediateProcessorStrategy::BreakingPointInserter => Some(15),
            IntermediateProcessorStrategy::LongEdgeSplitter => Some(16),
            IntermediateProcessorStrategy::PortSideProcessor => Some(17),
            IntermediateProcessorStrategy::InvertedPortProcessor => Some(18),
            IntermediateProcessorStrategy::PortListSorter => Some(19),
            IntermediateProcessorStrategy::SortByInputOrderOfModel => Some(20),
            IntermediateProcessorStrategy::NorthSouthPortPreprocessor => Some(21),
            IntermediateProcessorStrategy::BreakingPointProcessor => Some(22),
            IntermediateProcessorStrategy::OneSidedGreedySwitch => Some(23),
            IntermediateProcessorStrategy::TwoSidedGreedySwitch => Some(24),
            IntermediateProcessorStrategy::SelfLoopPortRestorer => Some(25),
            IntermediateProcessorStrategy::AlternatingLayerUnzipper => Some(26),
            IntermediateProcessorStrategy::SingleEdgeGraphWrapper => Some(27),
            IntermediateProcessorStrategy::InLayerConstraintProcessor => Some(28),
            IntermediateProcessorStrategy::EndNodePortLabelManagementProcessor => Some(29),
            IntermediateProcessorStrategy::LabelAndNodeSizeProcessor => Some(30),
            IntermediateProcessorStrategy::InnermostNodeMarginCalculator => Some(31),
            IntermediateProcessorStrategy::SelfLoopRouter => Some(32),
            IntermediateProcessorStrategy::CommentNodeMarginCalculator => Some(33),
            IntermediateProcessorStrategy::EndLabelPreprocessor => Some(34),
            IntermediateProcessorStrategy::LabelDummySwitcher => Some(35),
            IntermediateProcessorStrategy::CenterLabelManagementProcessor => Some(36),
            IntermediateProcessorStrategy::LabelSideSelector => Some(37),
            IntermediateProcessorStrategy::HyperedgeDummyMerger => Some(38),
            IntermediateProcessorStrategy::HierarchicalPortDummySizeProcessor => Some(39),
            IntermediateProcessorStrategy::LayerSizeAndGraphHeightCalculator => Some(40),
            IntermediateProcessorStrategy::HierarchicalPortPositionProcessor => Some(41),
            IntermediateProcessorStrategy::ConstraintsPostprocessor => Some(42),
            IntermediateProcessorStrategy::CommentPostprocessor => Some(43),
            IntermediateProcessorStrategy::HypernodeProcessor => Some(44),
            IntermediateProcessorStrategy::HierarchicalPortOrthogonalEdgeRouter => Some(45),
            IntermediateProcessorStrategy::LongEdgeJoiner => Some(46),
            IntermediateProcessorStrategy::SelfLoopPostprocessor => Some(47),
            IntermediateProcessorStrategy::BreakingPointRemover => Some(48),
            IntermediateProcessorStrategy::NorthSouthPortPostprocessor => Some(49),
            IntermediateProcessorStrategy::HorizontalCompactor => Some(50),
            IntermediateProcessorStrategy::LabelDummyRemover => Some(51),
            IntermediateProcessorStrategy::FinalSplineBendpointsCalculator => Some(52),
            IntermediateProcessorStrategy::EndLabelSorter => Some(53),
            IntermediateProcessorStrategy::ReversedEdgeRestorer => Some(54),
            IntermediateProcessorStrategy::EndLabelPostprocessor => Some(55),
            IntermediateProcessorStrategy::HierarchicalNodeResizer => Some(56),
            IntermediateProcessorStrategy::DirectionPostprocessor => Some(57),
        }
    }
}

/// The running order lists each strategy once, at its ordinal: the ordinal
/// picks the strategy back out of the list, and the strategy at a position
/// has that position as its ordinal.
pub proof fn lemma_ordinal_round_trip(s: IntermediateProcessorStrategy, i: int)
    ensures
        all_variants().len() == 58,
        spec_ordinal(s) < 58,
        all_variants()[spec_ordinal(s) as int] == s,
        0 <= i < 58 ==> spec_ordinal(all_variants()[i]) == i,
{
    reveal_with_fuel(spec_ordinal, 1);
}

} // verus!
