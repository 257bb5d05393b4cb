//! Immutable, declaratively rebuilt descriptions of a user-interface tree.
//!
//! A view is a closed variant over the node kinds the engine understands.
//! Composite kinds (stateless and stateful) carry the child view their
//! payload builds; the render kind carries an opaque render-object value
//! and the list of child views it declares. Every concrete payload is
//! erased to an integer type token plus an integer property value, so two
//! payloads agree exactly when token and value agree.

use vstd::prelude::*;

use crate::keypath::KeyPath;

verus! {

/// Payload of a stateless view: the erased concrete type, its property
/// value, and the child view its build step yields.
#[derive(Debug)]
pub struct StatelessConfiguration {
    pub type_id: u64,
    pub props: u64,
    pub child: Box<UiView>,
}

/// Payload of a stateful view: as the stateless payload, plus the value
/// its retained state object starts from.
#[derive(Debug)]
pub struct StatefulConfiguration {
    pub type_id: u64,
    pub props: u64,
    pub initial_state: u64,
    pub child: Box<UiView>,
}

/// Payload of a render view: the erased concrete type, its property
/// value, the opaque render-object value it creates, and the child views
/// it declares.
#[derive(Debug)]
pub struct RenderObjectConfiguration {
    pub type_id: u64,
    pub props: u64,
    pub render_object: u64,
    pub children: Vec<UiView>,
}

/// A key-pathed handle to a view payload. The transient view and the
/// retained element both hold one; they agree when key path and payload
/// agree.
#[derive(Debug)]
pub struct Configuration<T> {
    pub key_path: KeyPath,
    pub view: T,
}

/// One node of the immutable view tree.
#[derive(Debug)]
pub enum UiView {
    /// Describes no element at all.
    Empty,
    /// A composite node with retained per-element state.
    Stateful(Configuration<StatefulConfiguration>),
    /// A composite node without retained state.
    Stateless(Configuration<StatelessConfiguration>),
    /// A node that materialises a render object.
    RenderObject(Configuration<RenderObjectConfiguration>),
}

/// Structural equality of two views: equal variant, equal key path, equal
/// erased type, equal payload value, and structurally equal carried child
/// views. `Empty` is equal only to `Empty`, never to a concrete view.
pub open spec fn view_eq(a: UiView, b: UiView) -> bool
    decreases a,
{
    match (a, b) {
        (UiView::Empty, UiView::Empty) => true,
        (UiView::Stateful(c1), UiView::Stateful(c2)) => {
            &&& c1.key_path == c2.key_path
            &&& c1.view.type_id == c2.view.type_id
            &&& c1.view.props == c2.view.props
            &&& c1.view.initial_state == c2.view.initial_state
            &&& view_eq(*c1.view.child, *c2.view.child)
        },
        (UiView::Stateless(c1), UiView::Stateless(c2)) => {
            &&& c1.key_path == c2.key_path
            &&& c1.view.type_id == c2.view.type_id
            &&& c1.view.props == c2.view.props
            &&& view_eq(*c1.view.child, *c2.view.child)
        },
        (UiView::RenderObject(c1), UiView::RenderObject(c2)) => {
            &&& c1.key_path == c2.key_path
            &&& c1.view.type_id == c2.view.type_id
            &&& c1.view.props == c2.view.props
            &&& c1.view.render_object == c2.view.render_object
            &&& c1.view.children@.len() == c2.view.children@.len()
            &&& (forall|k: int|
                0 <= k < c1.view.children@.len() ==> view_eq(
                    #[trigger] c1.view.children@[k],
                    c2.view.children@[k],
                ))
        },
        _ => false,
    }
}

/// Number of render-object nodes a view describes, its whole subtree
/// included.
pub open spec fn render_count(v: UiView) -> nat
    decreases v,
{
    match v {
        UiView::Empty => 0,
        UiView::Stateful(c) => render_count(*c.view.child),
        UiView::Stateless(c) => render_count(*c.view.child),
        UiView::RenderObject(c) => 1 + render_count_list(c.view.children@),
    }
}

/// Number of render-object nodes a list of views describes.
pub open spec fn render_count_list(s: Seq<UiView>) -> nat
    decreases s,
{
    if s.len() == 0 {
        0
    } else {
        render_count(s[0]) + render_count_list(s.subrange(1, s.len() as int))
    }
}

/// Appending a view adds its render count.
pub proof fn lemma_render_count_list_snoc(s: Seq<UiView>, w: UiView)
    ensures
        render_count_list(s.push(w)) == render_count_list(s) + render_count(w),
    decreases s,
{
    if s.len() == 0 {
        assert(s.push(w)[0] == w);
        assert(s.push(w).subrange(1, 1) =~= Seq::<UiView>::empty());
        assert(render_count_list(s.push(w).subrange(1, 1)) == 0);
    } else {
        assert(s.push(w)[0] == s[0]);
        assert(s.push(w).subrange(1, s.len() as int + 1) =~= s.subrange(1, s.len() as int).push(
            w,
        ));
        lemma_render_count_list_snoc(s.subrange(1, s.len() as int), w);
        assert(render_count_list(s.push(w).subrange(1, s.len() as int + 1)) == render_count_list(
            s.subrange(1, s.len() as int),
        ) + render_count(w));
    }
}

/// Structurally equal views describe the same number of render objects.
pub proof fn lemma_render_count_view_eq(a: UiView, b: UiView)
    requires
        view_eq(a, b),
    ensures
        render_count(a) == render_count(b),
    decreases a,
{
    match (a, b) {
        (UiView::Stateful(c1), UiView::Stateful(c2)) => {
            lemma_render_count_view_eq(*c1.view.child, *c2.view.child);
        },
        (UiView::Stateless(c1), UiView::Stateless(c2)) => {
            lemma_render_count_view_eq(*c1.view.child, *c2.view.child);
        },
        (UiView::RenderObject(c1), UiView::RenderObject(c2)) => {
            lemma_render_count_list_view_eq(c1.view.children@, c2.view.children@);
        },
        _ => {},
    }
}

/// List form of [`lemma_render_count_view_eq`].
pub proof fn lemma_render_count_list_view_eq(s1: Seq<UiView>, s2: Seq<UiView>)
    requires
        s1.len() == s2.len(),
        forall|k: int| 0 <= k < s1.len() ==> view_eq(#[trigger] s1[k], s2[k]),
    ensures
        render_count_list(s1) == render_count_list(s2),
    decreases s1,
{
    if s1.len() > 0 {
        assert(view_eq(s1[0], s2[0]));
        lemma_render_count_view_eq(s1[0], s2[0]);
        assert forall|k: int|
            0 <= k < s1.subrange(1, s1.len() as int).len() implies view_eq(
            #[trigger] s1.subrange(1, s1.len() as int)[k],
            s2.subrange(1, s2.len() as int)[k],
        ) by {
            assert(s1.subrange(1, s1.len() as int)[k] == s1[k + 1]);
            assert(s2.subrange(1, s2.len() as int)[k] == s2[k + 1]);
        }
        lemma_render_count_list_view_eq(
            s1.subrange(1, s1.len() as int),
            s2.subrange(1, s2.len() as int),
        );
    }
}

/// Structural equality is reflexive.
pub proof fn lemma_view_eq_reflexive(a: UiView)
    ensures
        view_eq(a, a),
    decreases a,
{
    match a {
        UiView::Empty => {},
        UiView::Stateful(c) => {
            lemma_view_eq_reflexive(*c.view.child);
        },
        UiView::Stateless(c) => {
            lemma_view_eq_reflexive(*c.view.child);
        },
        UiView::RenderObject(c) => {
            assert forall|k: int| 0 <= k < c.view.children@.len() implies view_eq(
                #[trigger] c.view.children@[k],
                c.view.children@[k],
            ) by {
                lemma_view_eq_reflexive(c.view.children@[k]);
            }
        },
    }
}

/// Structural equality is symmetric.
pub proof fn lemma_view_eq_sym(a: UiView, b: UiView)
    requires
        view_eq(a, b),
    ensures
        view_eq(b, a),
    decreases a,
{
    match (a, b) {
        (UiView::Stateful(c1), UiView::Stateful(c2)) => {
            lemma_view_eq_sym(*c1.view.child, *c2.view.child);
        },
        (UiView::Stateless(c1), UiView::Stateless(c2)) => {
            lemma_view_eq_sym(*c1.view.child, *c2.view.child);
        },
        (UiView::RenderObject(c1), UiView::RenderObject(c2)) => {
            assert forall|k: int| 0 <= k < c2.view.children@.len() implies view_eq(
                #[trigger] c2.view.children@[k],
                c1.view.children@[k],
            ) by {
                assert(view_eq(c1.view.children@[k], c2.view.children@[k]));
                lemma_view_eq_sym(c1.view.children@[k], c2.view.children@[k]);
            }
        },
        _ => {},
    }
}

/// Structural equality is transitive.
pub proof fn lemma_view_eq_trans(a: UiView, b: UiView, c: UiView)
    requires
        view_eq(a, b),
        view_eq(b, c),
    ensures
        view_eq(a, c),
    decreases a,
{
    match (a, b) {
        (UiView::Stateful(c1), UiView::Stateful(c2)) => {
            lemma_view_eq_trans(*c1.view.child, *c2.view.child, *c->Stateful_0.view.child);
        },
        (UiView::Stateless(c1), UiView::Stateless(c2)) => {
            lemma_view_eq_trans(*c1.view.child, *c2.view.child, *c->Stateless_0.view.child);
        },
        (UiView::RenderObject(c1), UiView::RenderObject(c2)) => {
            let c3 = c->RenderObject_0;
            assert forall|k: int| 0 <= k < c1.view.children@.len() implies view_eq(
                #[trigger] c1.view.children@[k],
                c3.view.children@[k],
            ) by {
                assert(view_eq(c1.view.children@[k], c2.view.children@[k]));
                assert(view_eq(c2.view.children@[k], c3.view.children@[k]));
                lemma_view_eq_trans(
                    c1.view.children@[k],
                    c2.view.children@[k],
                    c3.view.children@[k],
                );
            }
        },
        _ => {},
    }
}

/// Structurally equal views agree on their variant, their key path and
/// the concrete kind they would match.
pub proof fn lemma_view_eq_shape(a: UiView, b: UiView)
    requires
        view_eq(a, b),
    ensures
        a.key_path_spec() == b.key_path_spec(),
        (a is Empty) == (b is Empty),
        (a is Stateful) == (b is Stateful),
        (a is Stateless) == (b is Stateless),
        (a is RenderObject) == (b is RenderObject),
        forall|c: UiView| (#[trigger] a.same_type_spec(c)) == b.same_type_spec(c),
{
    assert forall|c: UiView| (#[trigger] a.same_type_spec(c)) == b.same_type_spec(c) by {
        match (a, b) {
            (UiView::Empty, UiView::Empty) => {},
            (UiView::Stateful(c1), UiView::Stateful(c2)) => {},
            (UiView::Stateless(c1), UiView::Stateless(c2)) => {},
            (UiView::RenderObject(c1), UiView::RenderObject(c2)) => {},
            _ => {},
        }
    }
}

impl UiView {
    /// Do two views describe the same concrete element kind? Per the
    /// reconciliation rules this compares both the variant and the erased
    /// concrete type; `Empty` matches only `Empty`.
    pub open spec fn same_type_spec(self, other: UiView) -> bool {
        match (self, other) {
            (UiView::Empty, UiView::Empty) => true,
            (UiView::Stateful(c1), UiView::Stateful(c2)) => c1.view.type_id == c2.view.type_id,
            (UiView::Stateless(c1), UiView::Stateless(c2)) => c1.view.type_id == c2.view.type_id,
            (UiView::RenderObject(c1), UiView::RenderObject(c2)) => c1.view.type_id
                == c2.view.type_id,
            _ => false,
        }
    }

    /// The key path of the view, if it describes anything.
    pub open spec fn key_path_spec(self) -> Option<KeyPath> {
        match self {
            UiView::Empty => None,
            UiView::Stateful(c) => Some(c.key_path),
            UiView::Stateless(c) => Some(c.key_path),
            UiView::RenderObject(c) => Some(c.key_path),
        }
    }

    /// Same concrete element kind as `view`?
    pub fn same_type(&self, view: &UiView) -> (r: bool)
        ensures
            r == self.same_type_spec(*view),
    {
        match (self, view) {
            (UiView::Empty, UiView::Empty) => true,
            (UiView::Stateful(c1), UiView::Stateful(c2)) => c1.view.type_id == c2.view.type_id,
            (UiView::Stateless(c1), UiView::Stateless(c2)) => c1.view.type_id == c2.view.type_id,
            (UiView::RenderObject(c1), UiView::RenderObject(c2)) => c1.view.type_id
                == c2.view.type_id,
            _ => false,
        }
    }

    /// The key path of the view, if it describes anything.
    pub fn to_keypath(&self) -> (r: Option<KeyPath>)
        ensures
            r == self.key_path_spec(),
    {
        match self {
            UiView::Empty => None,
            UiView::Stateful(c) => Some(c.key_path),
            UiView::Stateless(c) => Some(c.key_path),
            UiView::RenderObject(c) => Some(c.key_path),
        }
    }
}

/// Decide structural equality of two views.
#[verifier::loop_isolation(false)]
pub fn eq_views(a: &UiView, b: &UiView) -> (r: bool)
    ensures
        r == view_eq(*a, *b),
    decreases *a,
{
    match (a, b) {
        (UiView::Empty, UiView::Empty) => true,
        (UiView::Stateful(c1), UiView::Stateful(c2)) => {
            c1.key_path == c2.key_path && c1.view.type_id == c2.view.type_id && c1.view.props
                == c2.view.props && c1.view.initial_state == c2.view.initial_state && eq_views(
                &c1.view.child,
                &c2.view.child,
            )
        },
        (UiView::Stateless(c1), UiView::Stateless(c2)) => {
            c1.key_path == c2.key_path && c1.view.type_id == c2.view.type_id && c1.view.props
                == c2.view.props && eq_views(&c1.view.child, &c2.view.child)
        },
        (UiView::RenderObject(c1), UiView::RenderObject(c2)) => {
            if !(c1.key_path == c2.key_path && c1.view.type_id == c2.view.type_id && c1.view.props
                == c2.view.props && c1.view.render_object == c2.view.render_object) {
                return false;
            }
            let ca = &c1.view.children;
            let cb = &c2.view.children;
            if ca.len() != cb.len() {
                return false;
            }
            let mut k: usize = 0;
            let len = ca.len();
            let mut eq_all: bool = true;
            while k < len
                invariant
                    0 <= k <= len,
                    eq_all ==> (forall|t: int| 0 <= t < k ==> view_eq(#[trigger] ca@[t], cb@[t])),
                    !eq_all ==> (exists|t: int|
                        0 <= t < k && !view_eq(#[trigger] ca@[t], cb@[t])),
                decreases len - k,
            {
                let e = eq_views(&ca[k], &cb[k]);
                proof {
                    if !e {
                        assert(0 <= k < k + 1 && !view_eq(ca@[k as int], cb@[k as int]));
                    }
                }
                eq_all = eq_all && e;
                k = k + 1;
            }
            eq_all
        },
        _ => false,
    }
}

/// Lift a stateless payload into a view under the given key path.
pub fn stateless_to_view(key_path: KeyPath, type_id: u64, props: u64, child: UiView) -> (r: UiView)
    ensures
        r matches UiView::Stateless(c) && c.key_path == key_path && c.view.type_id == type_id
            && c.view.props == props && *c.view.child == child,
{
    UiView::Stateless(
        Configuration { key_path, view: StatelessConfiguration { type_id, props, child: Box::new(child) } },
    )
}

/// Lift a stateful payload into a view under the given key path.
pub fn stateful_to_view(
    key_path: KeyPath,
    type_id: u64,
    props: u64,
    initial_state: u64,
    child: UiView,
) -> (r: UiView)
    ensures
        r matches UiView::Stateful(c) && c.key_path == key_path && c.view.type_id == type_id
            && c.view.props == props && c.view.initial_state == initial_state && *c.view.child
            == child,
{
    UiView::Stateful(
        Configuration {
            key_path,
            view: StatefulConfiguration { type_id, props, initial_state, child: Box::new(child) },
        },
    )
}

/// Lift a render payload into a view under the given key path.
pub fn render_object_to_view(
    key_path: KeyPath,
    type_id: u64,
    props: u64,
    render_object: u64,
    children: Vec<UiView>,
) -> (r: UiView)
    ensures
        r matches UiView::RenderObject(c) && c.key_path == key_path && c.view.type_id == type_id
            && c.view.props == props && c.view.render_object == render_object && c.view.children@
            == children@,
{
    UiView::RenderObject(
        Configuration {
            key_path,
            view: RenderObjectConfiguration { type_id, props, render_object, children },
        },
    )
}

/// A structurally equal copy of a list of views.
pub fn clone_views(v: &Vec<UiView>) -> (r: Vec<UiView>)
    ensures
        r@.len() == v@.len(),
        forall|k: int| 0 <= k < v@.len() ==> view_eq(#[trigger] r@[k], v@[k]),
{
    let mut out: Vec<UiView> = Vec::new();
    let len = v.len();
    let mut k: usize = 0;
    while k < len
        invariant
            len == v@.len(),
            0 <= k <= len,
            out@.len() == k,
            forall|t: int| 0 <= t < k ==> view_eq(#[trigger] out@[t], v@[t]),
        decreases len - k,
    {
        out.push((&v[k]).clone());
        k = k + 1;
    }
    out
}

/// Lift a concrete view value into the erased view tree.
pub trait IntoView {
    /// Convert this value into a [`UiView`].
    fn into_view(self) -> UiView;
}

impl IntoView for () {
    /// The unit value describes nothing.
    fn into_view(self) -> (r: UiView)
        ensures
            r == UiView::Empty,
    {
        UiView::Empty
    }
}

impl Clone for UiView {
    /// A structurally equal copy of the view tree.
    #[verifier::loop_isolation(false)]
    fn clone(&self) -> (r: Self)
        ensures
            view_eq(r, *self),
        decreases *self,
    {
        match self {
            UiView::Empty => UiView::Empty,
            UiView::Stateful(c) => UiView::Stateful(
                Configuration {
                    key_path: c.key_path,
                    view: StatefulConfiguration {
                        type_id: c.view.type_id,
                        props: c.view.props,
                        initial_state: c.view.initial_state,
                        child: Box::new((&*c.view.child).clone()),
                    },
                },
            ),
            UiView::Stateless(c) => UiView::Stateless(
                Configuration {
                    key_path: c.key_path,
                    view: StatelessConfiguration {
                        type_id: c.view.type_id,
                        props: c.view.props,
                        child: Box::new((&*c.view.child).clone()),
                    },
                },
            ),
            UiView::RenderObject(c) => {
                let mut out: Vec<UiView> = Vec::new();
                let len = c.view.children.len();
                let mut k: usize = 0;
                while k < len
                    invariant
                        len == c.view.children@.len(),
                        0 <= k <= len,
                        out@.len() == k,
                        forall|t: int| 0 <= t < k ==> view_eq(
                            #[trigger] out@[t],
                            c.view.children@[t],
                        ),
                    decreases len - k,
                {
                    proof {
                        assert(decreases_to!(*self => c.view.children));
                        assert(decreases_to!(c.view.children => c.view.children@[k as int]));
                        assert(decreases_to!(*self => c.view.children@[k as int]));
                    }
                    out.push((&c.view.children[k]).clone());
                    k = k + 1;
                }
                UiView::RenderObject(
                    Configuration {
                        key_path: c.key_path,
                        view: RenderObjectConfiguration {
                            type_id: c.view.type_id,
                            props: c.view.props,
                            render_object: c.view.render_object,
                            children: out,
                        },
                    },
                )
            },
        }
    }
}

} // verus!
