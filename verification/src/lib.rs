//! Intermediate processors of the layered graph layout algorithm.
pub mod graph;
pub mod graph_check;
pub mod greedyswitch;
pub mod graph_transformer;
pub mod in_layer_constraint_processor;
pub mod constraints_postprocessor;
pub mod edge_and_layer_constraint_edge_reverser;
pub mod label_and_node_size_processor;
pub mod hyperedge_dummy_merger;
pub mod breaking_point_info;
pub mod breaking_point_inserter;
pub mod alternating_layer_unzipper;
pub mod intermediate_processor_strategy;
pub mod high_degree_node_layering_processor;
pub mod breaking_point_processor;
pub mod breaking_point_remover;
pub mod hierarchical_node_resizing_processor;
pub mod comment_preprocessor;
pub mod comment_postprocessor;
pub mod inverted_port_processor;
pub mod hierarchical_port_constraint_processor;
pub mod end_label_sorter;
pub mod hierarchical_port_orthogonal_edge_router;
