//! The handle a retained state object uses to request a rebuild of its
//! owning element.

use vstd::prelude::*;

use crate::element::Element;
use crate::element::ElementId;
use crate::element::State;
use crate::framework::FrameworkContext;
use crate::node::Node;

verus! {

impl FrameworkContext {
    /// Store a new state value in the mounted stateful element `id` and
    /// synchronously re-run its composite rebuild. Requesting a state
    /// change while a rebuild of the same element is in flight is a logic
    /// error and is ruled out up front.
    pub fn set_state(&mut self, id: ElementId, value: u64)
        requires
            old(self).wf(),
            old(self).element_tree.live(id as int),
            old(self).elem(id as int) matches Element::Stateful(e) && e.mounted && !e.building,
        ensures
            final(self).wf(),
            final(self).element_tree.live(id as int),
            // the element keeps its identity; its state object survives
            // with the new value.
            final(self).elem(id as int) is Stateful,
            final(self).elem(id as int).id_spec() == Some(id),
            final(self).elem(id as int)->Stateful_0.state == (State {
                type_id: old(self).elem(id as int)->Stateful_0.state.type_id,
                value,
            }),
            final(self).elem(id as int).to_configuration_spec() == old(self).elem(
                id as int,
            ).to_configuration_spec(),
            // the rebuild ran against the stored template, starting from
            // the context whose only difference is the new state value.
            exists|pre2: FrameworkContext, r: Option<ElementId>|
                {
                    &&& pre2.element_tree.nodes@ == old(self).element_tree.nodes@.update(
                        id as int,
                        Some(
                            Node {
                                parent: old(self).element_tree.parent_of(id as int),
                                value: Element::Stateful(
                                    crate::element::StatefulElement {
                                        id: old(self).elem(id as int)->Stateful_0.id,
                                        config: old(self).elem(id as int)->Stateful_0.config,
                                        state: State {
                                            type_id: old(self).elem(
                                                id as int,
                                            )->Stateful_0.state.type_id,
                                            value,
                                        },
                                        mounted: old(self).elem(id as int)->Stateful_0.mounted,
                                        building: old(self).elem(id as int)->Stateful_0.building,
                                    },
                                ),
                                children: old(self).element_tree.node_of(id as int).children,
                            },
                        ),
                    )
                    &&& pre2.render_tree.nodes@ == old(self).render_tree.nodes@
                    &&& #[trigger] pre2.reconcile_post(
                        *final(self),
                        id as int,
                        pre2.child_slot(id as int),
                        pre2.elem(id as int).build_spec(),
                        r,
                    )
                },
    {
        match &mut self.element_tree.nodes[id] {
            Some(n) => {
                match &mut n.value {
                    Element::Stateful(e) => { e.state.value = value },
                    _ => {},
                }
            },
            None => {},
        }
        proof {
            old(self).element_tree.lemma_wf_same_structure(self.element_tree);
            assert forall|i: int| self.element_tree.live(i) implies self.element_ok(i) by {
                assert(old(self).element_tree.live(i));
                assert(old(self).element_ok(i));
                if i != id {
                    assert(self.elem(i) == old(self).elem(i));
                }
            }
            assert forall|i: int, j: int|
                self.element_tree.live(i) && self.element_tree.live(j) && i != j && (
            #[trigger] self.elem(i).render_id_spec()) is Some && (#[trigger] self.elem(
                j,
            ).render_id_spec()) is Some implies self.elem(i).render_id_spec() != self.elem(
                j,
            ).render_id_spec() by {
                assert(old(self).element_tree.live(i) && old(self).element_tree.live(j));
                assert(self.elem(i).render_id_spec() == old(self).elem(i).render_id_spec());
                assert(self.elem(j).render_id_spec() == old(self).elem(j).render_id_spec());
            }
        }
        let ghost pre2 = *self;
        self.composite_rebuild(id);
        proof {
            let r = choose|r: Option<ElementId>|
                pre2.reconcile_post(
                    *self,
                    id as int,
                    pre2.child_slot(id as int),
                    pre2.elem(id as int).build_spec(),
                    r,
                );
            assert(pre2.element_ok(id as int));
            pre2.lemma_reconcile_keeps_parent(
                *self,
                id as int,
                pre2.child_slot(id as int),
                pre2.elem(id as int).build_spec(),
                r,
            );
        }
    }
}

/// A handle to the location of a view in the element tree, letting a
/// state object request its own future rebuild.
pub trait IBuildContext {
    /// The element this handle stands for.
    spec fn element_id_spec(&self) -> ElementId;

    /// Request a rebuild of the owning element with a new state value.
    fn set_state(&self, context: &mut FrameworkContext, value: u64)
        requires
            old(context).wf(),
            old(context).element_tree.live(self.element_id_spec() as int),
            old(context).elem(self.element_id_spec() as int) matches Element::Stateful(e)
                && e.mounted && !e.building,
        ensures
            final(context).wf(),
            final(context).element_tree.live(self.element_id_spec() as int),
            final(context).elem(self.element_id_spec() as int) is Stateful,
            final(context).elem(self.element_id_spec() as int)->Stateful_0.state == (State {
                type_id: old(context).elem(
                    self.element_id_spec() as int,
                )->Stateful_0.state.type_id,
                value,
            }),
    ;
}

/// Type-erased [`IBuildContext`] implementation: the handle carries the
/// index of its owning element.
#[derive(Debug, Clone, Copy, PartialEq, Eq, Structural)]
pub struct BuildContext {
    pub element: ElementId,
}

impl IBuildContext for BuildContext {
    open spec fn element_id_spec(&self) -> ElementId {
        self.element
    }

    fn set_state(&self, context: &mut FrameworkContext, value: u64) {
        context.set_state(self.element, value);
    }
}

} // verus!
