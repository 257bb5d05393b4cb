//! Render-object nodes: the opaque host-rendering payloads attached to
//! render-kind elements, stored in an arena of their own.

use vstd::prelude::*;

verus! {

/// Stable index of a render object in the render arena.
pub type RenderObjectId = usize;

/// Marker capability of concrete host render payloads. The engine never
/// looks inside a render payload; it only stores the erased value.
pub trait RenderObjectLifecycle {

}

/// The erased render value is itself a valid render payload.
impl RenderObjectLifecycle for u64 {

}

/// One node of the render-object tree: its own index, once attached, and
/// the erased render value the element's payload created.
#[derive(Debug, Clone)]
pub struct RenderObject {
    pub id: Option<RenderObjectId>,
    pub lifecycle: u64,
}

impl RenderObject {
    /// A fresh, not yet attached render object around `lifecycle`.
    pub fn new(lifecycle: u64) -> (r: RenderObject)
        ensures
            r.id is None,
            r.lifecycle == lifecycle,
    {
        RenderObject { id: None, lifecycle }
    }

    /// Record the arena index this render object was attached under.
    pub fn initialize(&mut self, id: RenderObjectId)
        ensures
            final(self).id == Some(id),
            final(self).lifecycle == old(self).lifecycle,
    {
        self.id = Some(id);
    }
}

} // verus!
