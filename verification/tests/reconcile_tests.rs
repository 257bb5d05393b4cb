use agoraui_compose::arena::Arena;
use agoraui_compose::element::Element;
use agoraui_compose::framework::FrameworkContext;
use agoraui_compose::keypath::CallSite;
use agoraui_compose::keypath::KeyPath;
use agoraui_compose::view::UiView;
use agoraui_compose::view::eq_views;
use agoraui_compose::view::render_object_to_view;
use agoraui_compose::view::stateful_to_view;
use agoraui_compose::view::stateless_to_view;

const TEXT: u64 = 10;
const LABEL: u64 = 11;
const COUNTER: u64 = 12;
const BUTTON: u64 = 13;
const PANEL: u64 = 14;

fn key(line: u64, column: u64) -> KeyPath {
    KeyPath::from_site(CallSite { file: 1, line, column })
}

fn text_view() -> UiView {
    stateless_to_view(
        key(1, 1),
        TEXT,
        0,
        render_object_to_view(key(2, 1), LABEL, 0, 7, vec![]),
    )
}

#[test]
fn test_into_view() {
    let mut arena: Arena<Element> = Arena::new();
    let view = text_view();

    let element_id = view.into_element(&mut arena);

    assert!(element_id.is_some());
}

#[test]
fn test_mount() {
    let mut context = FrameworkContext::default();
    let view = text_view();

    let element_id = view.into_element(&mut context.element_tree).unwrap();

    context.mount(element_id, None);

    match context.element_tree.get(element_id).value() {
        Element::Stateless(e) => {
            assert!(e.id.is_some());
            assert!(e.mounted);
        },
        _ => panic!("expected a stateless element"),
    }
}

#[test]
fn test_identity_preservation() {
    let mut ctx = FrameworkContext::default();
    let root = stateless_to_view(
        key(1, 1),
        TEXT,
        0,
        stateful_to_view(key(2, 1), COUNTER, 1, 42, UiView::Empty),
    );
    let root_id = root.into_element(&mut ctx.element_tree).unwrap();
    ctx.mount(root_id, None);

    let child_id = ctx.child_id(root_id).unwrap();
    let state_before = match ctx.element_tree.get(child_id).value() {
        Element::Stateful(e) => e.state,
        _ => panic!("expected a stateful element"),
    };
    assert_eq!(state_before.value, 42);

    // the same call site builds the same concrete type with new props.
    let next = stateful_to_view(key(2, 1), COUNTER, 2, 0, UiView::Empty);
    let r = ctx.update_child(root_id, Some(child_id), next);

    assert_eq!(r, Some(child_id));
    match ctx.element_tree.get(child_id).value() {
        Element::Stateful(e) => {
            // one element, one state instance, new configuration.
            assert_eq!(e.id, Some(child_id));
            assert_eq!(e.state, state_before);
            assert_eq!(e.config.view.props, 2);
        },
        _ => panic!("expected a stateful element"),
    }
}

#[test]
fn test_replacement_on_type_change() {
    let mut ctx = FrameworkContext::default();
    let root = text_view();
    let root_id = root.into_element(&mut ctx.element_tree).unwrap();
    ctx.mount(root_id, None);

    let child_id = ctx.child_id(root_id).unwrap();
    let old_rid = match ctx.element_tree.get(child_id).value() {
        Element::Render(e) => e.render_object_id.unwrap(),
        _ => panic!("expected a render element"),
    };

    // a different concrete type at the same slot.
    let next = render_object_to_view(key(2, 1), BUTTON, 0, 8, vec![]);
    let r = ctx.update_child(root_id, Some(child_id), next).unwrap();

    assert_ne!(r, child_id);
    assert!(!ctx.element_tree.is_live(child_id));
    assert!(!ctx.render_tree.is_live(old_rid));
    let new_rid = match ctx.element_tree.get(r).value() {
        Element::Render(e) => e.render_object_id.unwrap(),
        _ => panic!("expected a render element"),
    };
    assert!(ctx.render_tree.is_live(new_rid));

    // a different key path at the same slot replaces as well.
    let next2 = render_object_to_view(key(9, 9), BUTTON, 0, 8, vec![]);
    let r2 = ctx.update_child(root_id, Some(r), next2).unwrap();
    assert_ne!(r2, r);
    assert!(!ctx.element_tree.is_live(r));
}

#[test]
fn test_skip_on_equality() {
    let mut ctx = FrameworkContext::default();
    let root = stateless_to_view(
        key(1, 1),
        TEXT,
        0,
        stateful_to_view(key(2, 1), COUNTER, 1, 42, UiView::Empty),
    );
    let root_id = root.into_element(&mut ctx.element_tree).unwrap();
    ctx.mount(root_id, None);
    let child_id = ctx.child_id(root_id).unwrap();
    let elements_before = ctx.element_tree.len();
    let renders_before = ctx.render_tree.len();

    // a structurally equal view must not touch anything.
    let next = stateful_to_view(key(2, 1), COUNTER, 1, 42, UiView::Empty);
    let r = ctx.update_child(root_id, Some(child_id), next);

    assert_eq!(r, Some(child_id));
    assert_eq!(ctx.element_tree.len(), elements_before);
    assert_eq!(ctx.render_tree.len(), renders_before);
    match ctx.element_tree.get(child_id).value() {
        Element::Stateful(e) => {
            assert_eq!(e.config.view.props, 1);
            assert_eq!(e.state.value, 42);
        },
        _ => panic!("expected a stateful element"),
    }
}

#[test]
fn test_empty_handling() {
    let mut arena: Arena<Element> = Arena::new();
    assert!(UiView::Empty.into_element(&mut arena).is_none());

    let mut ctx = FrameworkContext::default();
    let root = text_view();
    let root_id = root.into_element(&mut ctx.element_tree).unwrap();
    ctx.mount(root_id, None);
    let child_id = ctx.child_id(root_id).unwrap();

    let r = ctx.update_child(root_id, Some(child_id), UiView::Empty);

    assert!(r.is_none());
    assert!(!ctx.element_tree.is_live(child_id));
    assert!(ctx.child_id(root_id).is_none());
}

#[test]
fn test_render_tree_projection() {
    // Stateless(RenderA(Stateless(RenderB)))
    let inner = stateless_to_view(
        key(3, 1),
        TEXT,
        0,
        render_object_to_view(key(4, 1), LABEL, 0, 2, vec![]),
    );
    let root = stateless_to_view(
        key(1, 1),
        PANEL,
        0,
        render_object_to_view(key(2, 1), BUTTON, 0, 1, vec![inner]),
    );

    let mut ctx = FrameworkContext::default();
    let root_id = root.into_element(&mut ctx.element_tree).unwrap();
    ctx.mount(root_id, None);

    let mut live = 0;
    for i in 0..ctx.render_tree.len() {
        if ctx.render_tree.is_live(i) {
            live += 1;
        }
    }
    assert_eq!(live, 2);

    let a_el = ctx.child_id(root_id).unwrap();
    let ra = match ctx.element_tree.get(a_el).value() {
        Element::Render(e) => e.render_object_id.unwrap(),
        _ => panic!("expected a render element"),
    };
    let s_el = ctx.element_tree.children(a_el)[0];
    let b_el = ctx.child_id(s_el).unwrap();
    let rb = match ctx.element_tree.get(b_el).value() {
        Element::Render(e) => e.render_object_id.unwrap(),
        _ => panic!("expected a render element"),
    };

    // the outer render object is a render root; the inner one hangs
    // under it, with the intervening composite skipped.
    assert!(ctx.render_tree.get(ra).parent.is_none());
    assert_eq!(ctx.render_tree.get(rb).parent, Some(ra));
    assert_eq!(ctx.find_ancestor_render_object_element(b_el), Some(ra));
    assert_eq!(ctx.composite_first_render_object_id(root_id), Some(ra));
}

#[test]
fn test_render_declared_children_order() {
    let c1 = render_object_to_view(key(5, 1), LABEL, 1, 21, vec![]);
    let c2 = render_object_to_view(key(6, 1), LABEL, 2, 22, vec![]);
    let root = render_object_to_view(key(1, 1), PANEL, 0, 20, vec![c1, UiView::Empty, c2]);

    let mut ctx = FrameworkContext::default();
    let root_id = root.into_element(&mut ctx.element_tree).unwrap();
    ctx.mount(root_id, None);

    // the empty view yields no element; the others keep their order.
    let kids = ctx.element_tree.children(root_id).clone();
    assert_eq!(kids.len(), 2);
    let props: Vec<u64> = kids
        .iter()
        .map(|k| match ctx.element_tree.get(*k).value() {
            Element::Render(e) => e.config.view.props,
            _ => panic!("expected a render element"),
        })
        .collect();
    assert_eq!(props, vec![1, 2]);

    // the render tree mirrors the same order under the root's render
    // object.
    let root_rid = match ctx.element_tree.get(root_id).value() {
        Element::Render(e) => e.render_object_id.unwrap(),
        _ => panic!("expected a render element"),
    };
    let render_kids = ctx.render_tree.children(root_rid);
    assert_eq!(render_kids.len(), 2);
    assert_eq!(ctx.render_tree.get(render_kids[0]).value.lifecycle, 21);
    assert_eq!(ctx.render_tree.get(render_kids[1]).value.lifecycle, 22);
}

#[test]
fn test_key_uniqueness_from_call_site() {
    let s1 = CallSite { file: 1, line: 10, column: 4 };
    let s2 = CallSite { file: 1, line: 12, column: 4 };

    // different source expressions, same concrete type: different keys.
    assert_ne!(KeyPath::from_site(s1), KeyPath::from_site(s2));
    // the same branch evaluated twice yields the same key both times.
    assert_eq!(KeyPath::from_site(s1), KeyPath::from_site(s1));
}

#[test]
fn test_view_equality_and_clone() {
    let v1 = stateless_to_view(key(1, 1), TEXT, 5, UiView::Empty);
    let v2 = stateless_to_view(key(1, 1), TEXT, 5, UiView::Empty);
    let v3 = stateless_to_view(key(1, 1), TEXT, 6, UiView::Empty);

    assert!(eq_views(&v1, &v2));
    assert!(!eq_views(&v1, &v3));
    assert!(!eq_views(&v1, &UiView::Empty));

    let c = v1.clone();
    assert!(eq_views(&c, &v1));

    assert!(v1.same_type(&v3));
    assert!(!v1.same_type(&UiView::Empty));
    assert_eq!(v1.to_keypath(), Some(key(1, 1)));
    assert_eq!(UiView::Empty.to_keypath(), None);
}

#[test]
fn test_set_state() {
    let mut ctx = FrameworkContext::default();
    let root = stateful_to_view(key(1, 1), COUNTER, 1, 42, UiView::Empty);
    let root_id = root.into_element(&mut ctx.element_tree).unwrap();
    ctx.mount(root_id, None);

    ctx.set_state(root_id, 99);

    match ctx.element_tree.get(root_id).value() {
        Element::Stateful(e) => {
            assert_eq!(e.id, Some(root_id));
            assert_eq!(e.state.value, 99);
            assert_eq!(e.state.type_id, COUNTER);
        },
        _ => panic!("expected a stateful element"),
    }
}
