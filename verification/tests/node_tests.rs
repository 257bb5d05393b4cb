use agoraui_compose::node::Node;

#[derive(Debug, PartialEq)]
enum MockType {
    T1,
    T2,
}

#[test]
fn test_from() {
    let root: Node<MockType> = MockType::T1.into();
    assert!(root.parent.is_none());

    let node = Node::<MockType>::from((0usize, MockType::T2));

    assert_eq!(node.value, MockType::T2);

    assert_eq!(*node.value(), MockType::T2);

    assert_eq!(node.parent, Some(0usize));
}
