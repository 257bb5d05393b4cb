use agoraui_compose::arena::Arena;

#[test]
fn test_arena_ancestors() {
    let mut arena: Arena<i32> = Arena::new();

    let a = arena.new_node(1);
    let b = arena.new_node(2);
    let c = arena.new_node(3);

    arena.append(a, b);

    arena.append(b, c);

    for i in arena.ancestors(c) {
        println!("{}", i);
    }

    assert_eq!(arena.get(c).parent.unwrap(), b);
}

#[test]
fn test_arena_remove_subtree() {
    let mut arena: Arena<i32> = Arena::new();

    let a = arena.new_node(1);
    let b = arena.new_node(2);
    let c = arena.new_node(3);
    let d = arena.new_node(4);

    arena.append(a, b);
    arena.append(b, c);
    arena.append(a, d);

    arena.remove_subtree(b);

    assert!(arena.is_live(a));
    assert!(!arena.is_live(b));
    assert!(!arena.is_live(c));
    assert!(arena.is_live(d));
    assert_eq!(arena.children(a).len(), 1);
    assert_eq!(arena.children(a)[0], d);
}

#[test]
fn test_arena_remove_reparents_children() {
    let mut arena: Arena<i32> = Arena::new();

    let a = arena.new_node(1);
    let b = arena.new_node(2);
    let c = arena.new_node(3);

    arena.append(a, b);
    arena.append(b, c);

    arena.remove(b);

    assert!(!arena.is_live(b));
    assert!(arena.is_live(c));
    assert!(arena.get(c).parent.is_none());
    assert_eq!(arena.children(a).len(), 0);
}
