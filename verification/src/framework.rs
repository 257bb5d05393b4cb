//! The shared handle through which every reconciliation call works: the
//! element arena and the render-object arena, threaded by reference
//! through the whole call chain.

use vstd::prelude::*;

use crate::arena::Arena;
use crate::element::Element;
use crate::render::RenderObject;

verus! {

/// Both arenas of one mounted tree.
#[derive(Debug)]
pub struct FrameworkContext {
    pub element_tree: Arena<Element>,
    pub render_tree: Arena<RenderObject>,
}

impl FrameworkContext {
    /// The element stored in slot `i` of the element arena.
    pub open spec fn elem(self, i: int) -> Element {
        self.element_tree.value_of(i)
    }

    /// Per-element consistency: the element knows its own index, a
    /// composite holds at most one child, and an attached render object
    /// really is in the render arena under the recorded index.
    pub open spec fn element_ok(self, i: int) -> bool {
        &&& self.elem(i).id_spec() == Some(i as usize)
        &&& (self.elem(i).is_composite() ==> self.element_tree.children_of(i).len() <= 1)
        &&& (self.elem(i).render_id_spec() matches Some(r) ==> {
            &&& self.render_tree.live(r as int)
            &&& self.render_tree.value_of(r as int).id == Some(r)
        })
        &&& (self.elem(i) is Render && self.elem(i).mounted_spec() ==> self.elem(
            i,
        ).render_id_spec() is Some)
    }

    /// Well-formedness of the whole context: both arenas are forests,
    /// every element is consistent, and no two elements share a render
    /// object.
    pub open spec fn wf(self) -> bool {
        &&& self.element_tree.wf()
        &&& self.render_tree.wf()
        &&& (forall|i: int| #[trigger] self.element_tree.live(i) ==> self.element_ok(i))
        &&& (forall|i: int, j: int|
            self.element_tree.live(i) && self.element_tree.live(j) && i != j && (#[trigger] self.elem(
                i,
            ).render_id_spec()) is Some && (#[trigger] self.elem(j).render_id_spec()) is Some
                ==> self.elem(i).render_id_spec() != self.elem(j).render_id_spec())
    }

    /// A fresh context with two empty arenas.
    pub fn new() -> (r: FrameworkContext)
        ensures
            r.wf(),
            r.element_tree.spec_len() == 0,
            r.render_tree.spec_len() == 0,
    {
        FrameworkContext { element_tree: Arena::new(), render_tree: Arena::new() }
    }
}

impl Default for FrameworkContext {
    /// Same as [`FrameworkContext::new`].
    fn default() -> (r: FrameworkContext)
        ensures
            r.wf(),
            r.element_tree.spec_len() == 0,
            r.render_tree.spec_len() == 0,
    {
        FrameworkContext::new()
    }
}

} // verus!
