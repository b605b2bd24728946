use elk_layered::end_label_sorter::{sort_by_text, text_less, EndLabelSorter};
use elk_layered::graph::{LGraph, LNode, NodeType};

fn texts(words: &[&str]) -> Vec<Vec<u8>> {
    words.iter().map(|w| w.as_bytes().to_vec()).collect()
}

#[test]
fn texts_compare_by_their_bytes() {
    let t = texts(&["ab", "b", "a", "", "B"]);
    assert!(text_less(&t[0], &t[1]));
    assert!(!text_less(&t[1], &t[0]));
    assert!(text_less(&t[2], &t[0]));
    assert!(!text_less(&t[0], &t[0]));
    assert!(text_less(&t[3], &t[2]));
    assert!(!text_less(&t[3], &t[3]));
    // upper case letters come before lower case ones
    assert!(text_less(&t[4], &t[1]));
    for a in &t {
        for b in &t {
            assert_eq!(text_less(a, b), a < b);
        }
    }
}

#[test]
fn labels_with_equal_texts_keep_their_order() {
    let t = texts(&["b", "a", "b", "a"]);
    assert_eq!(sort_by_text(&vec![0, 1, 2, 3], &t), vec![1, 3, 0, 2]);
    assert_eq!(sort_by_text(&vec![3, 2, 1, 0], &t), vec![3, 1, 2, 0]);
    assert_eq!(sort_by_text(&vec![], &t), Vec::<usize>::new());
}

#[test]
fn label_dummies_in_layers_get_sorted_labels() {
    let t = texts(&["c", "a", "b"]);
    let mut label = LNode::new(NodeType::Label);
    label.layer = Some(0);
    label.represented_labels = Some(vec![0, 1, 2]);
    let mut single = LNode::new(NodeType::Label);
    single.layer = Some(0);
    single.represented_labels = Some(vec![0]);
    let mut normal = LNode::new(NodeType::Normal);
    normal.layer = Some(0);
    normal.represented_labels = Some(vec![0, 1, 2]);
    let mut outside = LNode::new(NodeType::Label);
    outside.represented_labels = Some(vec![2, 1]);
    let mut g = LGraph {
        nodes: vec![label, single, normal, outside],
        ports: vec![],
        edges: vec![],
        layers: vec![vec![0, 1, 2]],
        layerless_nodes: vec![3],
    };
    EndLabelSorter.process(&mut g, &t);
    assert_eq!(g.nodes[0].represented_labels, Some(vec![1, 2, 0]));
    assert_eq!(g.nodes[1].represented_labels, Some(vec![0]));
    assert_eq!(g.nodes[2].represented_labels, Some(vec![0, 1, 2]));
    assert_eq!(g.nodes[3].represented_labels, Some(vec![2, 1]));
}

#[test]
fn sorting_sorted_labels_changes_nothing() {
    let t = texts(&["b", "a", "b", "a", "c"]);
    let once = sort_by_text(&vec![4, 0, 1, 2, 3], &t);
    assert_eq!(once, vec![1, 3, 0, 2, 4]);
    assert_eq!(sort_by_text(&once, &t), once);
}
