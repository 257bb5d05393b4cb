//! Elements: the persistent, mutable instantiations of views.
//!
//! One element exists per reconciled view node. An element keeps its
//! arena index for its whole lifetime; reconciliation either reuses it
//! (possibly replacing its configuration in place) or removes it together
//! with its subtree.

use vstd::prelude::*;

use crate::arena::Arena;
use crate::keypath::KeyPath;
use crate::render::RenderObjectId;
use crate::view::Configuration;
use crate::view::RenderObjectConfiguration;
use crate::view::StatefulConfiguration;
use crate::view::StatelessConfiguration;
use crate::view::UiView;
use crate::view::view_eq;

verus! {

/// Stable index of an element in the element arena.
pub type ElementId = usize;

/// Retained behaviour object of a stateful element, created exactly once
/// per element lifetime and mutated in place afterwards.
#[derive(Debug, Clone, Copy, PartialEq, Eq, Structural)]
pub struct State {
    /// The erased concrete type of the payload the state was created for.
    pub type_id: u64,
    /// The mutable value the state carries across rebuilds.
    pub value: u64,
}

impl State {
    /// Create the retained state a stateful payload asks for.
    pub fn framework_create_state(config: &StatefulConfiguration) -> (r: State)
        ensures
            r == (State { type_id: config.type_id, value: config.initial_state }),
    {
        State { type_id: config.type_id, value: config.initial_state }
    }
}

/// Element instantiated from a stateful view.
#[derive(Debug)]
pub struct StatefulElement {
    pub id: Option<ElementId>,
    pub config: Configuration<StatefulConfiguration>,
    pub state: State,
    pub mounted: bool,
    /// Phase flag: a rebuild of this element is in flight. Requesting a
    /// state change while it is set would corrupt the rebuild.
    pub building: bool,
}

/// Element instantiated from a stateless view.
#[derive(Debug)]
pub struct StatelessElement {
    pub id: Option<ElementId>,
    pub config: Configuration<StatelessConfiguration>,
    pub mounted: bool,
}

/// Element instantiated from a render view.
#[derive(Debug)]
pub struct RenderObjectElement {
    pub id: Option<ElementId>,
    pub config: Configuration<RenderObjectConfiguration>,
    pub render_object_id: Option<RenderObjectId>,
    pub mounted: bool,
}

/// A persistent instantiation of one view node.
#[derive(Debug)]
pub enum Element {
    Stateful(StatefulElement),
    Stateless(StatelessElement),
    Render(RenderObjectElement),
}

impl Element {
    /// The arena index recorded in the element, if initialised.
    pub open spec fn id_spec(self) -> Option<ElementId> {
        match self {
            Element::Stateful(e) => e.id,
            Element::Stateless(e) => e.id,
            Element::Render(e) => e.id,
        }
    }

    /// Is this a composite (stateless or stateful) element?
    pub open spec fn is_composite(self) -> bool {
        self is Stateful || self is Stateless
    }

    /// The mounted flag.
    pub open spec fn mounted_spec(self) -> bool {
        match self {
            Element::Stateful(e) => e.mounted,
            Element::Stateless(e) => e.mounted,
            Element::Render(e) => e.mounted,
        }
    }

    /// The attached render-object index of a render element; composite
    /// elements never own one.
    pub open spec fn render_id_spec(self) -> Option<RenderObjectId> {
        match self {
            Element::Render(e) => e.render_object_id,
            _ => None,
        }
    }

    /// The key path of the stored configuration.
    pub open spec fn key_path_spec(self) -> KeyPath {
        match self {
            Element::Stateful(e) => e.config.key_path,
            Element::Stateless(e) => e.config.key_path,
            Element::Render(e) => e.config.key_path,
        }
    }

    /// The erased concrete payload type of the stored configuration.
    pub open spec fn type_id_spec(self) -> u64 {
        match self {
            Element::Stateful(e) => e.config.view.type_id,
            Element::Stateless(e) => e.config.view.type_id,
            Element::Render(e) => e.config.view.type_id,
        }
    }

    /// The stored configuration, read back as a view.
    pub open spec fn to_configuration_spec(self) -> UiView {
        match self {
            Element::Stateful(e) => UiView::Stateful(e.config),
            Element::Stateless(e) => UiView::Stateless(e.config),
            Element::Render(e) => UiView::RenderObject(e.config),
        }
    }

    /// The child view a composite element's payload builds.
    pub open spec fn build_spec(self) -> UiView {
        match self {
            Element::Stateful(e) => *e.config.view.child,
            Element::Stateless(e) => *e.config.view.child,
            Element::Render(e) => UiView::Empty,
        }
    }

    /// The arena index of this element.
    pub fn to_id(&self) -> (r: ElementId)
        requires
            self.id_spec() is Some,
        ensures
            Some(r) == self.id_spec(),
    {
        match self {
            Element::Stateful(e) => e.id.unwrap(),
            Element::Stateless(e) => e.id.unwrap(),
            Element::Render(e) => e.id.unwrap(),
        }
    }

    /// Record the arena index this element was created under.
    pub fn initialize(&mut self, id: ElementId)
        ensures
            final(self).id_spec() == Some(id),
            final(self).to_configuration_spec() == old(self).to_configuration_spec(),
            final(self).mounted_spec() == old(self).mounted_spec(),
            final(self).render_id_spec() == old(self).render_id_spec(),
            (*old(self)) is Stateful ==> (*final(self))->Stateful_0.state == (*old(
                self,
            ))->Stateful_0.state,
            ((*final(self)) is Stateful) == ((*old(self)) is Stateful),
            ((*final(self)) is Stateless) == ((*old(self)) is Stateless),
            ((*final(self)) is Render) == ((*old(self)) is Render),
    {
        match self {
            Element::Stateful(e) => { e.id = Some(id) },
            Element::Stateless(e) => { e.id = Some(id) },
            Element::Render(e) => { e.id = Some(id) },
        }
    }

    /// The mounted flag.
    pub fn mounted(&self) -> (r: bool)
        ensures
            r == self.mounted_spec(),
    {
        match self {
            Element::Stateful(e) => e.mounted,
            Element::Stateless(e) => e.mounted,
            Element::Render(e) => e.mounted,
        }
    }

    /// The attached render-object index, if this element owns one.
    pub fn to_render_object_id(&self) -> (r: Option<RenderObjectId>)
        ensures
            r == self.render_id_spec(),
    {
        match self {
            Element::Render(e) => e.render_object_id,
            _ => None,
        }
    }

    /// Read the stored configuration back as a view.
    pub fn to_configuration(&self) -> (r: UiView)
        ensures
            view_eq(r, self.to_configuration_spec()),
    {
        match self {
            Element::Stateful(e) => UiView::Stateful(
                Configuration {
                    key_path: e.config.key_path,
                    view: StatefulConfiguration {
                        type_id: e.config.view.type_id,
                        props: e.config.view.props,
                        initial_state: e.config.view.initial_state,
                        child: Box::new((&*e.config.view.child).clone()),
                    },
                },
            ),
            Element::Stateless(e) => UiView::Stateless(
                Configuration {
                    key_path: e.config.key_path,
                    view: StatelessConfiguration {
                        type_id: e.config.view.type_id,
                        props: e.config.view.props,
                        child: Box::new((&*e.config.view.child).clone()),
                    },
                },
            ),
            Element::Render(e) => self.clone_render_configuration(e),
        }
    }

    /// Clone a stored render configuration back into a view.
    fn clone_render_configuration(
        &self,
        e: &RenderObjectElement,
    ) -> (r: UiView)
        ensures
            view_eq(r, UiView::RenderObject(e.config)),
    {
        let mut out: Vec<UiView> = Vec::new();
        let len = e.config.view.children.len();
        let mut k: usize = 0;
        while k < len
            invariant
                len == e.config.view.children@.len(),
                0 <= k <= len,
                out@.len() == k,
                forall|t: int| 0 <= t < k ==> view_eq(
                    #[trigger] out@[t],
                    e.config.view.children@[t],
                ),
            decreases len - k,
        {
            out.push((&e.config.view.children[k]).clone());
            k = k + 1;
        }
        UiView::RenderObject(
            Configuration {
                key_path: e.config.key_path,
                view: RenderObjectConfiguration {
                    type_id: e.config.view.type_id,
                    props: e.config.view.props,
                    render_object: e.config.view.render_object,
                    children: out,
                },
            },
        )
    }

    /// Overwrite the stored configuration with the one carried by `view`.
    /// The caller must hand in a view of the element's own kind; nothing
    /// else of the element changes, in particular a stateful element's
    /// retained state survives untouched.
    pub fn update_configuration(&mut self, view: UiView)
        requires
            (*old(self)) is Stateful <==> view is Stateful,
            (*old(self)) is Stateless <==> view is Stateless,
            (*old(self)) is Render <==> view is RenderObject,
        ensures
            final(self).to_configuration_spec() == view,
            final(self).id_spec() == old(self).id_spec(),
            final(self).mounted_spec() == old(self).mounted_spec(),
            final(self).render_id_spec() == old(self).render_id_spec(),
            ((*final(self)) is Stateful) == ((*old(self)) is Stateful),
            ((*final(self)) is Stateless) == ((*old(self)) is Stateless),
            ((*final(self)) is Render) == ((*old(self)) is Render),
            (*old(self)) is Stateful ==> (*final(self))->Stateful_0.state == (*old(
                self,
            ))->Stateful_0.state && (*final(self))->Stateful_0.building == (*old(
                self,
            ))->Stateful_0.building,
    {
        match (self, view) {
            (Element::Stateful(e), UiView::Stateful(c)) => { e.config = c },
            (Element::Stateless(e), UiView::Stateless(c)) => { e.config = c },
            (Element::Render(e), UiView::RenderObject(c)) => { e.config = c },
            _ => {},
        }
    }
}

impl UiView {
    /// Instantiate this view as a fresh, unmounted element in `arena` and
    /// hand back its index; `Empty` yields no element and leaves the
    /// arena untouched.
    pub fn into_element(self, arena: &mut Arena<Element>) -> (r: Option<ElementId>)
        ensures
            old(arena).spec_len() <= usize::MAX as int,
            self is Empty ==> r is None && *final(arena) == *old(arena),
            !(self is Empty) ==> {
                &&& r == Some(old(arena).spec_len() as ElementId)
                &&& final(arena).spec_len() == old(arena).spec_len() + 1
                &&& (forall|j: int|
                    0 <= j < old(arena).spec_len() ==> final(arena).nodes@[j] == old(
                        arena,
                    ).nodes@[j])
                &&& (old(arena).wf() ==> final(arena).wf())
            },
            self matches UiView::Stateful(c) ==> final(arena).value_of(old(arena).spec_len())
                == (Element::Stateful(
                StatefulElement {
                    id: Some(old(arena).spec_len() as ElementId),
                    config: c,
                    state: State { type_id: c.view.type_id, value: c.view.initial_state },
                    mounted: false,
                    building: false,
                },
            )),
            self matches UiView::Stateless(c) ==> final(arena).value_of(old(arena).spec_len())
                == (Element::Stateless(
                StatelessElement {
                    id: Some(old(arena).spec_len() as ElementId),
                    config: c,
                    mounted: false,
                },
            )),
            self matches UiView::RenderObject(c) ==> final(arena).value_of(old(arena).spec_len())
                == (Element::Render(
                RenderObjectElement {
                    id: Some(old(arena).spec_len() as ElementId),
                    config: c,
                    render_object_id: None,
                    mounted: false,
                },
            )),
            !(self is Empty) ==> {
                &&& final(arena).live(old(arena).spec_len())
                &&& final(arena).parent_of(old(arena).spec_len()) is None
                &&& final(arena).children_of(old(arena).spec_len()).len() == 0
            },
    {
        proof {
            vstd::std_specs::vec::axiom_spec_len(&arena.nodes);
        }
        match self {
            UiView::Empty => None,
            UiView::Stateful(config) => {
                let id = arena.len();
                let state = State::framework_create_state(&config.view);
                let element = Element::Stateful(
                    StatefulElement { id: Some(id), config, state, mounted: false, building: false },
                );
                let id2 = arena.new_node(element);
                Some(id2)
            },
            UiView::Stateless(config) => {
                let id = arena.len();
                let element = Element::Stateless(
                    StatelessElement { id: Some(id), config, mounted: false },
                );
                let id2 = arena.new_node(element);
                Some(id2)
            },
            UiView::RenderObject(config) => {
                let id = arena.len();
                let element = Element::Render(
                    RenderObjectElement {
                        id: Some(id),
                        config,
                        render_object_id: None,
                        mounted: false,
                    },
                );
                let id2 = arena.new_node(element);
                Some(id2)
            },
        }
    }
}

} // verus!
