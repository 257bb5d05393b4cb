//! The reconciliation algorithm: mounting, rebuilding, updating and
//! deactivating elements, and attaching render objects.
//!
//! All tree mutation flows through [`FrameworkContext::update_child`],
//! which diffs a freshly built view against the existing child slot and
//! decides between skip, in-place update, and destroy-and-recreate.

use vstd::prelude::*;

use crate::element::Element;
use crate::element::ElementId;
use crate::framework::FrameworkContext;
use crate::render::RenderObject;
use crate::render::RenderObjectId;
use crate::view::UiView;
use crate::view::eq_views;

verus! {

impl FrameworkContext {
    /// The render-object index of the nearest ancestor element (in the
    /// element tree, the element itself excluded) that owns one.
    pub open spec fn nearest_render_ancestor(self, i: int) -> Option<RenderObjectId>
        decreases i,
            when self.element_tree.wf() && self.element_tree.live(i)
        via Self::nearest_render_ancestor_decreases
    {
        match self.element_tree.parent_of(i) {
            None => None,
            Some(p) => match self.elem(p as int).render_id_spec() {
                Some(r) => Some(r),
                None => self.nearest_render_ancestor(p as int),
            },
        }
    }

    #[via_fn]
    proof fn nearest_render_ancestor_decreases(self, i: int) {
        if self.element_tree.parent_of(i) is Some {
            assert(self.element_tree.node_ok(i));
        }
    }

    /// Two contexts hold exactly the same nodes in both arenas.
    pub open spec fn ctx_same(self, other: FrameworkContext) -> bool {
        &&& self.element_tree.nodes@ == other.element_tree.nodes@
        &&& self.render_tree.nodes@ == other.render_tree.nodes@
    }

    /// Everything deactivating the child subtree rooted at `c` does: the
    /// subtree's elements are removed, the render objects they owned are
    /// removed with them, and every surviving node of either arena is
    /// untouched, apart from the child list of `c`'s element parent.
    pub open spec fn deactivated(self, post: FrameworkContext, c: int) -> bool {
        &&& post.element_tree.spec_len() == self.element_tree.spec_len()
        &&& post.render_tree.spec_len() == self.render_tree.spec_len()
        &&& (forall|j: int|
            (#[trigger] post.element_tree.live(j)) <==> (self.element_tree.live(j)
                && !self.element_tree.has_ancestor(j, c)))
        &&& (forall|j: int|
            #[trigger] post.element_tree.live(j) ==> post.elem(j) == self.elem(j)
                && post.element_tree.parent_of(j) == self.element_tree.parent_of(j))
        &&& (forall|j: int|
            #[trigger] post.element_tree.live(j) && (self.element_tree.parent_of(c)
                matches Some(p) ==> j != p) ==> post.element_tree.children_of(j)
                == self.element_tree.children_of(j))
        &&& (self.element_tree.parent_of(c) matches Some(p) ==> (forall|v: usize|
            (#[trigger] post.element_tree.children_of(p as int).contains(v)) <==> (
            self.element_tree.children_of(p as int).contains(v) && v as int != c)))
        &&& (forall|r: int|
            (#[trigger] post.render_tree.live(r)) ==> self.render_tree.live(r)
                && post.render_tree.value_of(r) == self.render_tree.value_of(r))
        &&& (forall|j: int|
            self.element_tree.live(j) && self.element_tree.has_ancestor(j, c) && (
            #[trigger] self.elem(j).render_id_spec()) is Some ==> !post.render_tree.live(
                self.elem(j).render_id_spec()->Some_0 as int,
            ))
        &&& (forall|j: int|
            #[trigger] post.element_tree.live(j) && self.elem(j).render_id_spec() is Some
                ==> post.render_tree.live(self.elem(j).render_id_spec()->Some_0 as int))
        &&& (self.element_tree.parent_of(c) matches Some(p)
            ==> post.element_tree.children_of(p as int).len() == self.element_tree.children_of(
            p as int,
        ).len() - 1)
    }

    /// The element subtree at `id` is a freshly inflated instantiation of
    /// the view `v`: configurations correspond structurally level by
    /// level, every element is mounted, composite elements hold exactly
    /// the child their template describes, every stateful element carries
    /// a state created from its payload, and every render element has a
    /// render object attached.
    pub open spec fn represents(self, id: int, v: UiView) -> bool
        decreases v,
    {
        &&& self.element_tree.live(id)
        &&& self.elem(id).mounted_spec()
        &&& crate::view::view_eq(self.elem(id).to_configuration_spec(), v)
        &&& match v {
            UiView::Empty => false,
            UiView::Stateless(c) => {
                &&& self.elem(id) is Stateless
                &&& if *c.view.child is Empty {
                    self.element_tree.children_of(id).len() == 0
                } else {
                    &&& self.element_tree.children_of(id).len() == 1
                    &&& self.represents(
                        self.element_tree.children_of(id)[0] as int,
                        *c.view.child,
                    )
                }
            },
            UiView::Stateful(c) => {
                &&& self.elem(id) is Stateful
                &&& self.elem(id)->Stateful_0.state == (crate::element::State {
                    type_id: c.view.type_id,
                    value: c.view.initial_state,
                })
                &&& if *c.view.child is Empty {
                    self.element_tree.children_of(id).len() == 0
                } else {
                    &&& self.element_tree.children_of(id).len() == 1
                    &&& self.represents(
                        self.element_tree.children_of(id)[0] as int,
                        *c.view.child,
                    )
                }
            },
            UiView::RenderObject(c) => {
                &&& self.elem(id) is Render
                &&& self.elem(id).render_id_spec() is Some
                &&& self.render_tree.live(self.elem(id).render_id_spec()->Some_0 as int)
                &&& self.render_tree.value_of(self.elem(id).render_id_spec()->Some_0 as int)
                    == (RenderObject {
                    id: self.elem(id).render_id_spec(),
                    lifecycle: c.view.render_object,
                })
                &&& self.render_tree.parent_of(self.elem(id).render_id_spec()->Some_0 as int)
                    == self.nearest_render_ancestor(id)
                &&& self.represents_list(
                    self.element_tree.children_of(id),
                    c.view.children@,
                )
            },
        }
    }

    /// The elements `kids` instantiate the declared child views `views`
    /// in order, with `Empty` views yielding no element.
    pub open spec fn represents_list(self, kids: Seq<usize>, views: Seq<UiView>) -> bool
        decreases views,
    {
        if views.len() == 0 {
            kids.len() == 0
        } else if views[0] is Empty {
            self.represents_list(kids, views.subrange(1, views.len() as int))
        } else {
            &&& kids.len() > 0
            &&& self.represents(kids[0] as int, views[0])
            &&& self.represents_list(
                kids.subrange(1, kids.len() as int),
                views.subrange(1, views.len() as int),
            )
        }
    }

    /// Two contexts agree on the element subtree below `id`: the values,
    /// liveness and child lists of every element of the subtree, the
    /// render nodes those elements own, and the nearest render ancestor
    /// of every element of the subtree.
    pub open spec fn agrees_below(self, other: FrameworkContext, id: int) -> bool {
        &&& (forall|j: int|
            self.element_tree.live(j) && self.element_tree.has_ancestor(j, id) ==> {
                &&& (#[trigger] other.element_tree.live(j))
                &&& other.elem(j) == self.elem(j)
                &&& other.element_tree.children_of(j) == self.element_tree.children_of(j)
            })
        &&& (forall|j: int|
            self.element_tree.live(j) && (#[trigger] self.element_tree.has_ancestor(j, id))
                && self.elem(j).render_id_spec() is Some ==> {
                &&& other.render_tree.live(self.elem(j).render_id_spec()->Some_0 as int)
                    == self.render_tree.live(self.elem(j).render_id_spec()->Some_0 as int)
                &&& other.render_tree.value_of(self.elem(j).render_id_spec()->Some_0 as int)
                    == self.render_tree.value_of(self.elem(j).render_id_spec()->Some_0 as int)
                &&& other.render_tree.parent_of(self.elem(j).render_id_spec()->Some_0 as int)
                    == self.render_tree.parent_of(self.elem(j).render_id_spec()->Some_0 as int)
            })
        &&& (forall|j: int|
            self.element_tree.live(j) && (#[trigger] self.element_tree.has_ancestor(j, id))
                ==> other.nearest_render_ancestor(j) == self.nearest_render_ancestor(j))
    }

    /// Ancestry is transitive.
    pub proof fn lemma_has_ancestor_trans(self, a: int, b: int, c: int)
        requires
            self.element_tree.wf(),
            self.element_tree.live(a),
            self.element_tree.has_ancestor(a, b),
            self.element_tree.live(b),
            self.element_tree.has_ancestor(b, c),
        ensures
            self.element_tree.has_ancestor(a, c),
        decreases a,
    {
        if a != b {
            assert(self.element_tree.node_ok(a));
            let p = self.element_tree.parent_of(a)->Some_0;
            self.lemma_has_ancestor_trans(p as int, b, c);
        }
    }

    /// A represented subtree stays represented in any context that agrees
    /// with this one below its root.
    pub proof fn lemma_represents_stable(self, other: FrameworkContext, id: int, v: UiView)
        requires
            self.wf(),
            self.represents(id, v),
            self.agrees_below(other, id),
        ensures
            other.represents(id, v),
        decreases v,
    {
        assert(self.element_tree.has_ancestor(id, id));
        assert(other.element_tree.live(id));
        assert(other.elem(id) == self.elem(id));
        assert(other.element_tree.children_of(id) == self.element_tree.children_of(id));
        match v {
            UiView::Empty => {},
            UiView::Stateless(c) => {
                if !(*c.view.child is Empty) {
                    let k = self.element_tree.children_of(id)[0];
                    self.lemma_child_below(other, id, id, k);
                    self.lemma_represents_stable(other, k as int, *c.view.child);
                }
            },
            UiView::Stateful(c) => {
                if !(*c.view.child is Empty) {
                    let k = self.element_tree.children_of(id)[0];
                    self.lemma_child_below(other, id, id, k);
                    self.lemma_represents_stable(other, k as int, *c.view.child);
                }
            },
            UiView::RenderObject(c) => {
                let kids = self.element_tree.children_of(id);
                assert forall|w: int| 0 <= w < kids.len() implies self.element_tree.live(
                    #[trigger] kids[w] as int,
                ) && self.agrees_below(other, kids[w] as int) by {
                    assert(self.element_tree.children_of(id).contains(kids[w]));
                    self.lemma_child_below(other, id, id, kids[w]);
                }
                self.lemma_represents_list_stable(other, kids, c.view.children@);
            },
        }
    }

    /// A child of a node below `root` lies below `root` too, and the
    /// agreement region is closed under taking children.
    proof fn lemma_child_below(self, other: FrameworkContext, root: int, at: int, k: usize)
        requires
            self.wf(),
            self.element_tree.live(at),
            self.element_tree.has_ancestor(at, root),
            self.element_tree.children_of(at).contains(k),
            self.agrees_below(other, root),
        ensures
            self.element_tree.live(k as int),
            self.element_tree.has_ancestor(k as int, root),
            self.agrees_below(other, k as int),
    {
        self.element_tree.lemma_child_edge(at, k);
        assert(self.element_tree.has_ancestor(k as int, root));
        assert forall|j: int|
            self.element_tree.live(j) && self.element_tree.has_ancestor(j, k as int) implies {
            &&& (#[trigger] other.element_tree.live(j))
            &&& other.elem(j) == self.elem(j)
            &&& other.element_tree.children_of(j) == self.element_tree.children_of(j)
        } by {
            self.lemma_has_ancestor_trans(j, k as int, root);
        }
        assert forall|j: int|
            self.element_tree.live(j) && (#[trigger] self.element_tree.has_ancestor(j, k as int))
                && self.elem(j).render_id_spec() is Some implies {
            &&& other.render_tree.live(self.elem(j).render_id_spec()->Some_0 as int)
                == self.render_tree.live(self.elem(j).render_id_spec()->Some_0 as int)
            &&& other.render_tree.value_of(self.elem(j).render_id_spec()->Some_0 as int)
                == self.render_tree.value_of(self.elem(j).render_id_spec()->Some_0 as int)
            &&& other.render_tree.parent_of(self.elem(j).render_id_spec()->Some_0 as int)
                == self.render_tree.parent_of(self.elem(j).render_id_spec()->Some_0 as int)
        } by {
            self.lemma_has_ancestor_trans(j, k as int, root);
        }
        assert forall|j: int|
            self.element_tree.live(j) && (#[trigger] self.element_tree.has_ancestor(j, k as int))
            implies other.nearest_render_ancestor(j) == self.nearest_render_ancestor(j) by {
            self.lemma_has_ancestor_trans(j, k as int, root);
        }
    }

    /// List form of [`Self::lemma_represents_stable`]: every listed kid
    /// lives in a subtree on which the two contexts agree.
    pub proof fn lemma_represents_list_stable(
        self,
        other: FrameworkContext,
        kids: Seq<usize>,
        views: Seq<UiView>,
    )
        requires
            self.wf(),
            self.represents_list(kids, views),
            forall|w: int|
                0 <= w < kids.len() ==> self.element_tree.live(#[trigger] kids[w] as int)
                    && self.agrees_below(other, kids[w] as int),
        ensures
            other.represents_list(kids, views),
        decreases views,
    {
        if views.len() == 0 {
        } else if views[0] is Empty {
            self.lemma_represents_list_stable(other, kids, views.subrange(1, views.len() as int));
        } else {
            let k = kids[0];
            self.lemma_represents_stable(other, k as int, views[0]);
            assert forall|w: int|
                0 <= w < kids.subrange(1, kids.len() as int).len() implies self.element_tree.live(
                #[trigger] kids.subrange(1, kids.len() as int)[w] as int,
            ) && self.agrees_below(other, kids.subrange(1, kids.len() as int)[w] as int) by {
                assert(kids.subrange(1, kids.len() as int)[w] == kids[w + 1]);
            }
            self.lemma_represents_list_stable(
                other,
                kids.subrange(1, kids.len() as int),
                views.subrange(1, views.len() as int),
            );
        }
    }

    /// Frame conditions imply subtree agreement: if `b` differs from `a`
    /// only at element `x` (which keeps its render id and its parent and
    /// lies strictly below `root`), preserves the liveness, values and
    /// edges of everything else that existed, and leaves the existing
    /// render nodes in place, then `b` agrees with `a` below `root`.
    proof fn lemma_agrees_below_from_frames(
        a: FrameworkContext,
        b: FrameworkContext,
        root: int,
        x: int,
    )
        requires
            a.wf(),
            b.element_tree.wf(),
            a.element_tree.live(root),
            x < root,
            forall|j: int|
                0 <= j < a.element_tree.spec_len() ==> ((#[trigger] b.element_tree.live(j))
                    == a.element_tree.live(j)),
            forall|j: int| a.element_tree.live(j) && j != x ==> b.elem(j) == a.elem(j),
            forall|j: int|
                a.element_tree.live(j) ==> b.element_tree.parent_of(j)
                    == a.element_tree.parent_of(j),
            forall|j: int|
                a.element_tree.live(j) && j != x ==> b.element_tree.children_of(j)
                    == a.element_tree.children_of(j),
            a.element_tree.live(x) ==> b.elem(x).render_id_spec() == a.elem(x).render_id_spec(),
            forall|r: int|
                0 <= r < a.render_tree.spec_len() ==> ((#[trigger] b.render_tree.live(r))
                    == a.render_tree.live(r)),
            forall|r: int|
                a.render_tree.live(r) ==> b.render_tree.value_of(r) == a.render_tree.value_of(r)
                    && b.render_tree.parent_of(r) == a.render_tree.parent_of(r),
        ensures
            a.agrees_below(b, root),
    {
        assert forall|j: int|
            a.element_tree.live(j) && a.element_tree.has_ancestor(j, root) implies {
            &&& (#[trigger] b.element_tree.live(j))
            &&& b.elem(j) == a.elem(j)
            &&& b.element_tree.children_of(j) == a.element_tree.children_of(j)
        } by {
            a.element_tree.lemma_ancestor_le(j, root);
            assert(j != x);
        }
        assert forall|j: int|
            a.element_tree.live(j) && (#[trigger] a.element_tree.has_ancestor(j, root))
                && a.elem(j).render_id_spec() is Some implies {
            &&& b.render_tree.live(a.elem(j).render_id_spec()->Some_0 as int)
                == a.render_tree.live(a.elem(j).render_id_spec()->Some_0 as int)
            &&& b.render_tree.value_of(a.elem(j).render_id_spec()->Some_0 as int)
                == a.render_tree.value_of(a.elem(j).render_id_spec()->Some_0 as int)
            &&& b.render_tree.parent_of(a.elem(j).render_id_spec()->Some_0 as int)
                == a.render_tree.parent_of(a.elem(j).render_id_spec()->Some_0 as int)
        } by {
            assert(a.element_ok(j));
        }
        assert forall|j: int|
            a.element_tree.live(j) && (#[trigger] a.element_tree.has_ancestor(j, root))
            implies b.nearest_render_ancestor(j) == a.nearest_render_ancestor(j) by {
            a.element_tree.lemma_ancestor_le(j, root);
            assert(b.element_tree.live(j));
            assert forall|k: int|
                a.element_tree.live(k) && k < j implies b.elem(k).render_id_spec() == a.elem(
                k,
            ).render_id_spec() by {
                if k != x {
                    assert(b.elem(k) == a.elem(k));
                }
            }
            b.lemma_nearest_unchanged(a, j);
        }
    }

    /// An `Empty` view appended to the declared list adds no element.
    proof fn lemma_represents_list_snoc_empty(self, kids: Seq<usize>, views: Seq<UiView>)
        requires
            self.represents_list(kids, views),
        ensures
            self.represents_list(kids, views.push(UiView::Empty)),
        decreases views,
    {
        if views.len() == 0 {
            assert(views.push(UiView::Empty)[0] is Empty);
            assert(views.push(UiView::Empty).subrange(1, 1) =~= Seq::<UiView>::empty());
            assert(self.represents_list(kids, views.push(UiView::Empty).subrange(1, 1)));
        } else {
            assert(views.push(UiView::Empty)[0] == views[0]);
            assert(views.push(UiView::Empty).subrange(
                1,
                views.len() as int + 1,
            ) =~= views.subrange(1, views.len() as int).push(UiView::Empty));
            if views[0] is Empty {
                self.lemma_represents_list_snoc_empty(
                    kids,
                    views.subrange(1, views.len() as int),
                );
                assert(self.represents_list(
                    kids,
                    views.push(UiView::Empty).subrange(1, views.len() as int + 1),
                ));
            } else {
                self.lemma_represents_list_snoc_empty(
                    kids.subrange(1, kids.len() as int),
                    views.subrange(1, views.len() as int),
                );
                assert(self.represents_list(
                    kids.subrange(1, kids.len() as int),
                    views.push(UiView::Empty).subrange(1, views.len() as int + 1),
                ));
            }
        }
    }

    /// A represented element appended to the kid list instantiates a
    /// non-empty view appended to the declared list.
    proof fn lemma_represents_list_snoc(
        self,
        kids: Seq<usize>,
        views: Seq<UiView>,
        k: usize,
        w: UiView,
    )
        requires
            self.represents_list(kids, views),
            self.represents(k as int, w),
            !(w is Empty),
        ensures
            self.represents_list(kids.push(k), views.push(w)),
        decreases views,
    {
        if views.len() == 0 {
            assert(kids.len() == 0);
            assert(views.push(w)[0] == w);
            assert(kids.push(k)[0] == k);
            assert(views.push(w).subrange(1, 1) =~= Seq::<UiView>::empty());
            assert(kids.push(k).subrange(1, 1) =~= Seq::<usize>::empty());
            assert(self.represents_list(kids.push(k).subrange(1, 1), views.push(w).subrange(1, 1)));
        } else {
            assert(views.push(w)[0] == views[0]);
            assert(views.push(w).subrange(1, views.len() as int + 1) =~= views.subrange(
                1,
                views.len() as int,
            ).push(w));
            if views[0] is Empty {
                self.lemma_represents_list_snoc(
                    kids,
                    views.subrange(1, views.len() as int),
                    k,
                    w,
                );
                assert(self.represents_list(
                    kids.push(k),
                    views.push(w).subrange(1, views.len() as int + 1),
                ));
            } else {
                assert(kids.push(k)[0] == kids[0]);
                assert(kids.push(k).subrange(1, kids.len() as int + 1) =~= kids.subrange(
                    1,
                    kids.len() as int,
                ).push(k));
                self.lemma_represents_list_snoc(
                    kids.subrange(1, kids.len() as int),
                    views.subrange(1, views.len() as int),
                    k,
                    w,
                );
                assert(self.represents_list(
                    kids.push(k).subrange(1, kids.len() as int + 1),
                    views.push(w).subrange(1, views.len() as int + 1),
                ));
            }
        }
    }

    /// Representation depends on the view only up to structural equality.
    pub proof fn lemma_represents_view_eq(self, id: int, v1: UiView, v2: UiView)
        requires
            self.represents(id, v1),
            crate::view::view_eq(v1, v2),
        ensures
            self.represents(id, v2),
        decreases v1,
    {
        crate::view::lemma_view_eq_trans(self.elem(id).to_configuration_spec(), v1, v2);
        match (v1, v2) {
            (UiView::Stateless(c1), UiView::Stateless(c2)) => {
                crate::view::lemma_view_eq_shape(*c1.view.child, *c2.view.child);
                if !(*c1.view.child is Empty) {
                    self.lemma_represents_view_eq(
                        self.element_tree.children_of(id)[0] as int,
                        *c1.view.child,
                        *c2.view.child,
                    );
                }
            },
            (UiView::Stateful(c1), UiView::Stateful(c2)) => {
                crate::view::lemma_view_eq_shape(*c1.view.child, *c2.view.child);
                if !(*c1.view.child is Empty) {
                    self.lemma_represents_view_eq(
                        self.element_tree.children_of(id)[0] as int,
                        *c1.view.child,
                        *c2.view.child,
                    );
                }
            },
            (UiView::RenderObject(c1), UiView::RenderObject(c2)) => {
                self.lemma_represents_list_view_eq(
                    self.element_tree.children_of(id),
                    c1.view.children@,
                    c2.view.children@,
                );
            },
            _ => {},
        }
    }

    /// List form of [`Self::lemma_represents_view_eq`].
    proof fn lemma_represents_list_view_eq(
        self,
        kids: Seq<usize>,
        views1: Seq<UiView>,
        views2: Seq<UiView>,
    )
        requires
            self.represents_list(kids, views1),
            views1.len() == views2.len(),
            forall|t: int|
                0 <= t < views1.len() ==> crate::view::view_eq(#[trigger] views1[t], views2[t]),
        ensures
            self.represents_list(kids, views2),
        decreases views1,
    {
        if views1.len() == 0 {
        } else {
            assert(crate::view::view_eq(views1[0], views2[0]));
            crate::view::lemma_view_eq_shape(views1[0], views2[0]);
            assert forall|t: int|
                0 <= t < views1.subrange(1, views1.len() as int).len() implies crate::view::view_eq(
                #[trigger] views1.subrange(1, views1.len() as int)[t],
                views2.subrange(1, views2.len() as int)[t],
            ) by {
                assert(views1.subrange(1, views1.len() as int)[t] == views1[t + 1]);
                assert(views2.subrange(1, views2.len() as int)[t] == views2[t + 1]);
            }
            if views1[0] is Empty {
                self.lemma_represents_list_view_eq(
                    kids,
                    views1.subrange(1, views1.len() as int),
                    views2.subrange(1, views2.len() as int),
                );
            } else {
                self.lemma_represents_view_eq(kids[0] as int, views1[0], views2[0]);
                self.lemma_represents_list_view_eq(
                    kids.subrange(1, kids.len() as int),
                    views1.subrange(1, views1.len() as int),
                    views2.subrange(1, views2.len() as int),
                );
            }
        }
    }

    /// Everything inflating view `v` under element `parent` does: one
    /// fresh mounted element appears as the new last child of `parent`,
    /// its stored configuration structurally equals `v`, a stateful
    /// element receives a state object created from the payload, and a
    /// render element has attached a render object. Everything that
    /// existed before is untouched, except that `parent` gains the child
    /// and render nodes may gain children appended behind the existing
    /// ones.
    pub open spec fn inflated(self, post: FrameworkContext, parent: int, v: UiView, fid: int) -> bool {
        &&& fid == self.element_tree.spec_len()
        &&& post.element_tree.spec_len() >= self.element_tree.spec_len() + 1
        &&& post.element_tree.live(fid)
        &&& post.elem(fid).mounted_spec()
        &&& crate::view::view_eq(post.elem(fid).to_configuration_spec(), v)
        &&& post.element_tree.parent_of(fid) == Some(parent as usize)
        &&& (v is Stateful ==> post.elem(fid) is Stateful && post.elem(fid)->Stateful_0.state
            == (crate::element::State {
            type_id: v->Stateful_0.view.type_id,
            value: v->Stateful_0.view.initial_state,
        }))
        &&& (v is Stateless ==> post.elem(fid) is Stateless)
        &&& (v is RenderObject ==> post.elem(fid) is Render && post.elem(
            fid,
        ).render_id_spec() is Some)
        &&& post.represents(fid, v)
        &&& (forall|j: int|
            0 <= j < self.element_tree.spec_len() ==> ((#[trigger] post.element_tree.live(j))
                == self.element_tree.live(j)))
        &&& (forall|j: int|
            #[trigger] self.element_tree.live(j) ==> post.elem(j) == self.elem(j)
                && post.element_tree.parent_of(j) == self.element_tree.parent_of(j))
        &&& (forall|j: int|
            #[trigger] self.element_tree.live(j) && j != parent ==> post.element_tree.children_of(
                j,
            ) == self.element_tree.children_of(j))
        &&& post.element_tree.children_of(parent) == self.element_tree.children_of(parent).push(
            fid as usize,
        )
        &&& post.render_tree.spec_len() >= self.render_tree.spec_len()
        &&& (forall|r: int|
            0 <= r < self.render_tree.spec_len() ==> ((#[trigger] post.render_tree.live(r))
                == self.render_tree.live(r)))
        &&& (forall|r: int|
            #[trigger] self.render_tree.live(r) ==> post.render_tree.value_of(r)
                == self.render_tree.value_of(r) && post.render_tree.parent_of(r)
                == self.render_tree.parent_of(r))
        &&& (forall|r: int|
            #[trigger] self.render_tree.live(r) ==> post.render_tree.children_of(r).len()
                >= self.render_tree.children_of(r).len() && (forall|w: int|
                0 <= w < self.render_tree.children_of(r).len()
                    ==> post.render_tree.children_of(r)[w] == self.render_tree.children_of(r)[w]))
        &&& post.render_tree.spec_len() == self.render_tree.spec_len()
            + crate::view::render_count(v)
        &&& (forall|r: int|
            self.render_tree.spec_len() <= r < post.render_tree.spec_len()
                ==> (#[trigger] post.render_tree.live(r)))
    }

    /// The decision table of reconciliation, as a relation between the
    /// context before, the context after, the reconciled child slot of
    /// `parent`, the freshly built view and the resulting child slot.
    ///
    /// In order: an `Empty` view deactivates any existing child and
    /// yields no child; with no existing child the view is inflated; a
    /// structurally equal view is skipped without touching anything; a
    /// view of the same concrete type and key path replaces the stored
    /// configuration in place, keeping the element's identity, its
    /// descendants, its render object and its retained state; any other
    /// view deactivates the old child's whole subtree first and then
    /// inflates a replacement under a fresh identity.
    pub open spec fn reconcile_post(
        self,
        post: FrameworkContext,
        parent: int,
        child: Option<ElementId>,
        v: UiView,
        r: Option<ElementId>,
    ) -> bool {
        match child {
            None => {
                if v is Empty {
                    r is None && post.ctx_same(self)
                } else {
                    r == Some(self.element_tree.spec_len() as ElementId) && self.inflated(
                        post,
                        parent,
                        v,
                        self.element_tree.spec_len(),
                    )
                }
            },
            Some(c) => {
                if v is Empty {
                    r is None && self.deactivated(post, c as int)
                } else if crate::view::view_eq(self.elem(c as int).to_configuration_spec(), v) {
                    r == Some(c) && post.ctx_same(self)
                } else if self.elem(c as int).to_configuration_spec().same_type_spec(v)
                    && Some(self.elem(c as int).key_path_spec()) == v.key_path_spec() {
                    &&& r == Some(c)
                    &&& post.element_tree.spec_len() == self.element_tree.spec_len()
                    &&& (forall|j: int|
                        (#[trigger] post.element_tree.live(j)) == self.element_tree.live(j))
                    &&& (forall|j: int|
                        #[trigger] self.element_tree.live(j) ==> post.element_tree.parent_of(j)
                            == self.element_tree.parent_of(j) && post.element_tree.children_of(j)
                            == self.element_tree.children_of(j))
                    &&& (forall|j: int|
                        self.element_tree.live(j) && j != c ==> post.elem(j) == self.elem(j))
                    &&& crate::view::view_eq(post.elem(c as int).to_configuration_spec(), v)
                    &&& post.elem(c as int).id_spec() == self.elem(c as int).id_spec()
                    &&& post.elem(c as int).mounted_spec() == self.elem(c as int).mounted_spec()
                    &&& post.elem(c as int).render_id_spec() == self.elem(c as int).render_id_spec()
                    &&& (self.elem(c as int) is Stateful ==> post.elem(c as int) is Stateful
                        && post.elem(c as int)->Stateful_0.state == self.elem(
                        c as int,
                    )->Stateful_0.state)
                    &&& post.render_tree.nodes@ == self.render_tree.nodes@
                } else {
                    &&& r == Some(self.element_tree.spec_len() as ElementId)
                    &&& c < self.element_tree.spec_len()
                    &&& !post.element_tree.live(c as int)
                    &&& (exists|m: FrameworkContext|
                        (#[trigger] self.deactivated(m, c as int)) && m.wf() && m.inflated(
                            post,
                            parent,
                            v,
                            m.element_tree.spec_len(),
                        ))
                }
            },
        }
    }

    /// Render-tree projection, read off the instantiation relation: in an
    /// inflated subtree, a render element's render object hangs exactly
    /// under the render object of its nearest render ancestor in the
    /// element tree — intervening composite elements are skipped — or
    /// stands as a render-tree root when no render ancestor exists. The
    /// same holds of every render element deeper in the subtree through
    /// the recursion of [`Self::represents`], so the render tree is the
    /// projection of the element tree onto its render-kind nodes, with
    /// their relative ancestor order preserved.
    pub proof fn lemma_render_tree_projection(self, id: int, v: UiView)
        requires
            self.represents(id, v),
            v is RenderObject,
        ensures
            self.elem(id) is Render,
            self.elem(id).render_id_spec() is Some,
            self.render_tree.live(self.elem(id).render_id_spec()->Some_0 as int),
            self.render_tree.parent_of(self.elem(id).render_id_spec()->Some_0 as int)
                == self.nearest_render_ancestor(id),
    {
    }

    /// Identity preservation and replacement, read off the decision
    /// table: reconciling an existing child against a freshly built view
    /// keeps the child's element exactly when the view carries the same
    /// concrete type and the same key path. When it does, the element
    /// index is unchanged and a stateful element's retained state
    /// instance survives untouched; when it does not, the old element is
    /// gone and the replacement lives under a fresh index.
    pub proof fn lemma_identity_preservation(
        self,
        post: FrameworkContext,
        parent: int,
        c: ElementId,
        v: UiView,
        r: Option<ElementId>,
    )
        requires
            self.wf(),
            self.element_tree.live(c as int),
            self.element_tree.spec_len() <= usize::MAX as int,
            !(v is Empty),
            self.reconcile_post(post, parent, Some(c), v, r),
        ensures
            (r == Some(c)) <==> (self.elem(c as int).to_configuration_spec().same_type_spec(v)
                && Some(self.elem(c as int).key_path_spec()) == v.key_path_spec()),
            r == Some(c) ==> {
                &&& post.elem(c as int).id_spec() == self.elem(c as int).id_spec()
                &&& (self.elem(c as int) is Stateful ==> post.elem(c as int) is Stateful
                    && post.elem(c as int)->Stateful_0.state == self.elem(
                    c as int,
                )->Stateful_0.state)
            },
            r != Some(c) ==> {
                &&& !post.element_tree.live(c as int)
                &&& (r matches Some(f) && f != c)
            },
    {
        let stored = self.elem(c as int).to_configuration_spec();
        if crate::view::view_eq(stored, v) {
            crate::view::lemma_view_eq_shape(stored, v);
            assert(stored.same_type_spec(v)) by {
                match (stored, v) {
                    (UiView::Stateful(a), UiView::Stateful(b)) => {},
                    (UiView::Stateless(a), UiView::Stateless(b)) => {},
                    (UiView::RenderObject(a), UiView::RenderObject(b)) => {},
                    _ => {},
                }
            }
            assert(stored.key_path_spec() == Some(self.elem(c as int).key_path_spec()));
            assert(post.ctx_same(self));
            assert(post.element_tree.nodes@[c as int] == self.element_tree.nodes@[c as int]);
            assert(post.elem(c as int) == self.elem(c as int));
        } else if stored.same_type_spec(v) && Some(self.elem(c as int).key_path_spec())
            == v.key_path_spec() {
        } else {
            assert(r == Some(self.element_tree.spec_len() as ElementId));
            assert(self.element_tree.spec_len() as ElementId != c);
        }
    }

    /// Skip on equality: when the freshly built view structurally equals
    /// the existing child's stored configuration, reconciliation returns
    /// the existing element and leaves both arenas exactly as they were —
    /// nothing in the subtree is touched and nothing is recursed into.
    pub proof fn lemma_skip_on_equality(
        self,
        post: FrameworkContext,
        parent: int,
        c: ElementId,
        v: UiView,
        r: Option<ElementId>,
    )
        requires
            !(v is Empty),
            crate::view::view_eq(self.elem(c as int).to_configuration_spec(), v),
            self.reconcile_post(post, parent, Some(c), v, r),
        ensures
            r == Some(c),
            post.ctx_same(self),
    {
    }

    /// Empty handling: an `Empty` view yields no child and deactivates a
    /// pre-existing child's whole subtree, render objects included.
    pub proof fn lemma_empty_handling(
        self,
        post: FrameworkContext,
        parent: int,
        c: ElementId,
        r: Option<ElementId>,
    )
        requires
            self.wf(),
            self.element_tree.live(c as int),
            self.reconcile_post(post, parent, Some(c), UiView::Empty, r),
        ensures
            r is None,
            self.deactivated(post, c as int),
            !post.element_tree.live(c as int),
    {
        assert(self.element_tree.has_ancestor(c as int, c as int));
    }

    /// After a composite element's freshly built child view was
    /// reconciled into its empty child slot and the element was marked
    /// mounted, the child slot instantiates the built view.
    proof fn lemma_composite_child_represented(
        sb: FrameworkContext,
        sc: FrameworkContext,
        fin: FrameworkContext,
        id: ElementId,
        cv: UiView,
        child_id: Option<ElementId>,
    )
        requires
            sb.wf(),
            sc.wf(),
            sb.element_tree.live(id as int),
            sb.element_tree.children_of(id as int).len() == 0,
            sb.reconcile_post(sc, id as int, None, cv, child_id),
            fin.element_tree.spec_len() == sc.element_tree.spec_len(),
            forall|j: int| (#[trigger] fin.element_tree.live(j)) == sc.element_tree.live(j),
            forall|j: int|
                sc.element_tree.live(j) ==> fin.element_tree.parent_of(j)
                    == sc.element_tree.parent_of(j) && fin.element_tree.children_of(j)
                    == sc.element_tree.children_of(j),
            forall|j: int| sc.element_tree.live(j) && j != id ==> fin.elem(j) == sc.elem(j),
            fin.element_tree.wf(),
            fin.render_tree.nodes@ == sc.render_tree.nodes@,
            sc.element_tree.live(id as int) ==> fin.elem(id as int).render_id_spec() == sc.elem(
                id as int,
            ).render_id_spec(),
        ensures
            cv is Empty ==> fin.element_tree.children_of(id as int).len() == 0,
            !(cv is Empty) ==> {
                &&& fin.element_tree.children_of(id as int).len() == 1
                &&& fin.represents(fin.element_tree.children_of(id as int)[0] as int, cv)
            },
    {
        if cv is Empty {
            assert(sc.ctx_same(sb));
            assert(sc.element_tree.nodes@[id as int] == sb.element_tree.nodes@[id as int]);
            assert(sc.element_tree.live(id as int));
        } else {
            let cfid = sb.element_tree.spec_len();
            assert(sb.inflated(sc, id as int, cv, cfid));
            assert(sc.represents(cfid, cv));
            assert(sc.element_tree.children_of(id as int) == sb.element_tree.children_of(
                id as int,
            ).push(cfid as usize));
            assert(sc.element_tree.children_of(id as int).len() == 1);
            assert(sc.element_tree.children_of(id as int)[0] == cfid as usize);
            assert forall|r: int|
                0 <= r < sc.render_tree.spec_len() implies ((#[trigger] fin.render_tree.live(r))
                == sc.render_tree.live(r)) by {
                assert(fin.render_tree.nodes@[r] == sc.render_tree.nodes@[r]);
            }
            assert forall|r: int|
                sc.render_tree.live(r) implies fin.render_tree.value_of(r)
                == sc.render_tree.value_of(r) && fin.render_tree.parent_of(r)
                == sc.render_tree.parent_of(r) by {
                assert(fin.render_tree.nodes@[r] == sc.render_tree.nodes@[r]);
            }
            assert(sc.element_tree.live(id as int));
            assert((id as int) < cfid);
            Self::lemma_agrees_below_from_frames(sc, fin, cfid, id as int);
            sc.lemma_represents_stable(fin, cfid, cv);
            assert(fin.element_tree.live(id as int));
            assert(fin.element_tree.children_of(id as int) == sc.element_tree.children_of(
                id as int,
            ));
        }
    }

    /// Mark element `id` as mounted; nothing else changes.
    fn set_mounted(&mut self, id: ElementId)
        requires
            old(self).wf(),
            old(self).element_tree.live(id as int),
            old(self).elem(id as int) is Render ==> old(self).elem(
                id as int,
            ).render_id_spec() is Some,
        ensures
            final(self).wf(),
            final(self).element_tree.spec_len() == old(self).element_tree.spec_len(),
            forall|j: int|
                (#[trigger] final(self).element_tree.live(j)) == old(self).element_tree.live(j),
            forall|j: int|
                old(self).element_tree.live(j) ==> final(self).element_tree.parent_of(j) == old(
                    self,
                ).element_tree.parent_of(j) && final(self).element_tree.children_of(j) == old(
                    self,
                ).element_tree.children_of(j),
            forall|j: int|
                old(self).element_tree.live(j) && j != id ==> final(self).elem(j) == old(
                    self,
                ).elem(j),
            final(self).render_tree.nodes@ == old(self).render_tree.nodes@,
            final(self).elem(id as int).mounted_spec(),
            final(self).elem(id as int).to_configuration_spec() == old(self).elem(
                id as int,
            ).to_configuration_spec(),
            final(self).elem(id as int).id_spec() == old(self).elem(id as int).id_spec(),
            final(self).elem(id as int).render_id_spec() == old(self).elem(
                id as int,
            ).render_id_spec(),
            ((*final(self)).elem(id as int) is Stateful) == ((*old(self)).elem(
                id as int,
            ) is Stateful),
            ((*final(self)).elem(id as int) is Stateless) == ((*old(self)).elem(
                id as int,
            ) is Stateless),
            ((*final(self)).elem(id as int) is Render) == ((*old(self)).elem(id as int) is Render),
            (*old(self)).elem(id as int) is Stateful ==> (*final(self)).elem(
                id as int,
            )->Stateful_0.state == (*old(self)).elem(id as int)->Stateful_0.state,
    {
        match &mut self.element_tree.nodes[id] {
            Some(n) => {
                match &mut n.value {
                    Element::Stateful(e) => { e.mounted = true },
                    Element::Stateless(e) => { e.mounted = true },
                    Element::Render(e) => { e.mounted = true },
                }
            },
            None => {},
        }
        proof {
            old(self).element_tree.lemma_wf_same_structure(self.element_tree);
            assert forall|i: int| self.element_tree.live(i) implies self.element_ok(i) by {
                assert(old(self).element_tree.live(i));
                assert(old(self).element_ok(i));
                if i != id {
                    assert(self.elem(i) == old(self).elem(i));
                }
            }
            assert forall|i: int, j: int|
                self.element_tree.live(i) && self.element_tree.live(j) && i != j && (
                #[trigger] self.elem(i).render_id_spec()) is Some && (#[trigger] self.elem(
                j,
            ).render_id_spec()) is Some implies self.elem(i).render_id_spec() != self.elem(
                j,
            ).render_id_spec() by {
                assert(old(self).element_tree.live(i) && old(self).element_tree.live(j));
                assert(self.elem(i).render_id_spec() == old(self).elem(i).render_id_spec());
                assert(self.elem(j).render_id_spec() == old(self).elem(j).render_id_spec());
            }
        }
    }

    /// Deactivate the child element `id`: remove its whole subtree from
    /// the element arena together with every render object the subtree
    /// owned.
    pub fn deactive_child(&mut self, id: ElementId)
        requires
            old(self).wf(),
            old(self).element_tree.live(id as int),
        ensures
            final(self).wf(),
            old(self).deactivated(*final(self), id as int),
    {
        let len = self.element_tree.len();
        // collect the render objects owned by the subtree.
        let mut rids: Vec<RenderObjectId> = Vec::new();
        let mut j: usize = id;
        while j < len
            invariant
                *self == *old(self),
                self.wf(),
                self.element_tree.live(id as int),
                len == self.element_tree.spec_len(),
                id <= j <= len,
                forall|t: int|
                    id <= t < j && self.element_tree.live(t) && self.element_tree.has_ancestor(
                        t,
                        id as int,
                    ) && (#[trigger] self.elem(t).render_id_spec()) is Some
                        ==> rids@.contains(self.elem(t).render_id_spec()->Some_0),
                forall|k: int|
                    0 <= k < rids@.len() ==> (exists|t: int|
                        id <= t < j && self.element_tree.live(t) && self.element_tree.has_ancestor(
                            t,
                            id as int,
                        ) && (#[trigger] self.elem(t).render_id_spec()) == Some(#[trigger] rids@[k])),
                rids@.no_duplicates(),
            decreases len - j,
        {
            if self.element_tree.is_live(j) && self.element_tree.reaches(j, id) {
                let r = self.element_tree.get(j).value().to_render_object_id();
                match r {
                    Some(rid) => {
                        proof {
                            // a second occurrence would mean two elements
                            // share one render object.
                            if rids@.contains(rid) {
                                let k = choose|k: int| 0 <= k < rids@.len() && rids@[k] == rid;
                                let t = choose|t: int|
                                    id <= t < j && self.element_tree.live(t)
                                        && self.element_tree.has_ancestor(t, id as int) && (
                                    #[trigger] self.elem(t).render_id_spec()) == Some(rids@[k]);
                                assert(false);
                            }
                        }
                        let ghost pre_rids = rids@;
                        rids.push(rid);
                        proof {
                            assert(rids@.last() == rid);
                            assert(rids@.contains(rid));
                            assert forall|t: int|
                                id <= t < j + 1 && self.element_tree.live(t)
                                    && self.element_tree.has_ancestor(t, id as int) && (
                                #[trigger] self.elem(t).render_id_spec()) is Some
                                implies rids@.contains(
                                self.elem(t).render_id_spec()->Some_0,
                            ) by {
                                if t < j {
                                    let v = self.elem(t).render_id_spec()->Some_0;
                                    assert(pre_rids.contains(v));
                                    let w = choose|w: int|
                                        0 <= w < pre_rids.len() && pre_rids[w] == v;
                                    assert(rids@[w] == v);
                                }
                            }
                        }
                    },
                    None => {},
                }
            }
            j = j + 1;
        }
        proof {
            // every subtree index lies at or above the root's own index.
            assert forall|t: int|
                self.element_tree.live(t) && self.element_tree.has_ancestor(t, id as int) && (
                #[trigger] self.elem(t).render_id_spec()) is Some implies rids@.contains(
                self.elem(t).render_id_spec()->Some_0,
            ) by {
                self.element_tree.lemma_ancestor_le(t, id as int);
            }
            assert forall|k: int| 0 <= k < rids@.len() implies self.render_tree.live(
                #[trigger] rids@[k] as int,
            ) by {
                let t = choose|t: int|
                    id <= t < len && self.element_tree.live(t)
                        && self.element_tree.has_ancestor(t, id as int) && (#[trigger] self.elem(
                        t,
                    ).render_id_spec()) == Some(rids@[k]);
                assert(self.element_ok(t));
            }
        }
        let ghost orig = *self;
        self.element_tree.remove_subtree(id);
        let ghost mid = *self;
        // remove the render objects the removed elements owned.
        let mut k: usize = 0;
        let rlen = rids.len();
        while k < rlen
            invariant
                orig.wf(),
                rlen == rids@.len(),
                0 <= k <= rlen,
                rids@.no_duplicates(),
                forall|w: int| 0 <= w < rlen ==> orig.render_tree.live(#[trigger] rids@[w] as int),
                self.element_tree == mid.element_tree,
                self.render_tree.spec_len() == orig.render_tree.spec_len(),
                self.render_tree.wf(),
                forall|r: int|
                    (#[trigger] self.render_tree.live(r)) <==> (orig.render_tree.live(r) && !(
                    exists|w: int| 0 <= w < k && rids@[w] as int == r)),
                forall|r: int|
                    #[trigger] self.render_tree.live(r) ==> self.render_tree.value_of(r)
                        == orig.render_tree.value_of(r),
            decreases rlen - k,
        {
            let rid = rids[k];
            proof {
                assert(!(exists|w: int| 0 <= w < k && rids@[w] as int == rid as int));
                assert(self.render_tree.live(rid as int));
            }
            let ghost pre = *self;
            self.render_tree.remove(rid);
            proof {
                assert forall|r: int|
                    (#[trigger] self.render_tree.live(r)) <==> (orig.render_tree.live(r) && !(
                    exists|w: int| 0 <= w < k + 1 && rids@[w] as int == r)) by {
                    if r == rid as int {
                        assert(rids@[k as int] as int == r);
                    } else {
                        assert(self.render_tree.live(r) == pre.render_tree.live(r));
                        if exists|w: int| 0 <= w < k + 1 && rids@[w] as int == r {
                            let w = choose|w: int| 0 <= w < k + 1 && rids@[w] as int == r;
                            assert(w < k || rids@[w] as int == rid as int);
                        }
                    }
                }
            }
            k = k + 1;
        }
        proof {
            let fin = *self;
            // well-formedness of the whole context after deactivation.
            assert forall|i: int| fin.element_tree.live(i) implies fin.element_ok(i) by {
                assert(orig.element_tree.live(i) && !orig.element_tree.has_ancestor(
                    i,
                    id as int,
                ));
                assert(fin.elem(i) == orig.elem(i));
                assert(orig.element_ok(i));
                if fin.elem(i).render_id_spec() is Some {
                    let r = fin.elem(i).render_id_spec()->Some_0;
                    assert(orig.render_tree.live(r as int));
                    assert(!(exists|w: int| 0 <= w < rlen && rids@[w] as int == r as int)) by {
                        if exists|w: int| 0 <= w < rlen && rids@[w] as int == r as int {
                            let w = choose|w: int|
                                0 <= w < rlen && rids@[w] as int == r as int;
                            let t = choose|t: int|
                                id <= t < orig.element_tree.spec_len() && orig.element_tree.live(
                                    t,
                                ) && orig.element_tree.has_ancestor(t, id as int) && (
                                #[trigger] orig.elem(t).render_id_spec()) == Some(rids@[w]);
                            assert(t != i);
                            assert(orig.elem(t).render_id_spec() == orig.elem(
                                i,
                            ).render_id_spec());
                            assert(false);
                        }
                    }
                    assert(fin.render_tree.live(r as int));
                    assert(fin.render_tree.value_of(r as int) == orig.render_tree.value_of(
                        r as int,
                    ));
                }
                if orig.element_tree.parent_of(id as int) is Some {
                    let p = orig.element_tree.parent_of(id as int)->Some_0;
                    if i == p as int && fin.elem(i).is_composite() {
                        assert(fin.element_tree.children_of(i).len() <= 1);
                    }
                }
            }
            assert forall|i: int, j: int|
                fin.element_tree.live(i) && fin.element_tree.live(j) && i != j && (
                #[trigger] fin.elem(i).render_id_spec()) is Some && (#[trigger] fin.elem(
                j,
            ).render_id_spec()) is Some implies fin.elem(i).render_id_spec() != fin.elem(
                j,
            ).render_id_spec() by {
                assert(orig.element_tree.live(i) && orig.element_tree.live(j));
                assert(fin.elem(i) == orig.elem(i) && fin.elem(j) == orig.elem(j));
            }
            // the subtree's render objects are gone.
            assert forall|j: int|
                orig.element_tree.live(j) && orig.element_tree.has_ancestor(j, id as int) && (
                #[trigger] orig.elem(j).render_id_spec()) is Some implies !fin.render_tree.live(
                orig.elem(j).render_id_spec()->Some_0 as int,
            ) by {
                let r = orig.elem(j).render_id_spec()->Some_0;
                assert(rids@.contains(r));
                let w = choose|w: int| 0 <= w < rids@.len() && rids@[w] == r;
                assert(rids@[w] as int == r as int);
            }
        }
    }

    /// Update the child slot of `parent` against the freshly built view
    /// `new_configuration`, following the reconciliation decision table:
    /// deactivate on `Empty`, inflate into an empty slot, skip on
    /// structural equality, update in place when concrete type and key
    /// path match, and otherwise destroy the old subtree and recreate.
    pub fn update_child(
        &mut self,
        parent: ElementId,
        child: Option<ElementId>,
        new_configuration: UiView,
    ) -> (r: Option<ElementId>)
        requires
            old(self).wf(),
            old(self).element_tree.live(parent as int),
            match child {
                Some(c) => old(self).element_tree.children_of(parent as int).len() == 1 && old(
                    self,
                ).element_tree.children_of(parent as int)[0] == c,
                None => old(self).element_tree.children_of(parent as int).len() == 0,
            },
        ensures
            final(self).wf(),
            old(self).reconcile_post(
                *final(self),
                parent as int,
                child,
                new_configuration,
                r,
            ),
        decreases new_configuration, 1int,
    {
        if let UiView::Empty = new_configuration {
            match child {
                Some(c) => {
                    proof {
                        assert(old(self).element_tree.children_of(parent as int).contains(c));
                        old(self).element_tree.lemma_child_edge(parent as int, c);
                    }
                    self.deactive_child(c);
                },
                None => {},
            }
            return None;
        }
        match child {
            None => self.inflate_view(new_configuration, parent),
            Some(c) => {
                proof {
                    assert(old(self).element_tree.children_of(parent as int).contains(c));
                    old(self).element_tree.lemma_child_edge(parent as int, c);
                }
                let configuration = self.element_tree.get(c).value().to_configuration();
                let ghost stored = old(self).elem(c as int).to_configuration_spec();
                if eq_views(&configuration, &new_configuration) {
                    proof {
                        crate::view::lemma_view_eq_sym(configuration, stored);
                        crate::view::lemma_view_eq_trans(stored, configuration, new_configuration);
                    }
                    Some(c)
                } else {
                    let same = if configuration.same_type(&new_configuration) {
                        let kp_a = configuration.to_keypath();
                        let kp_b = new_configuration.to_keypath();
                        match (kp_a, kp_b) {
                            (Some(x), Some(y)) => x == y,
                            _ => false,
                        }
                    } else {
                        false
                    };
                    proof {
                        crate::view::lemma_view_eq_shape(configuration, stored);
                        assert(configuration.same_type_spec(new_configuration)
                            == stored.same_type_spec(new_configuration));
                        assert(configuration.key_path_spec() == stored.key_path_spec());
                        assert(stored.key_path_spec() == Some(
                            old(self).elem(c as int).key_path_spec(),
                        ));
                        if crate::view::view_eq(stored, new_configuration) {
                            crate::view::lemma_view_eq_sym(stored, new_configuration);
                            crate::view::lemma_view_eq_trans(
                                configuration,
                                stored,
                                new_configuration,
                            );
                            assert(false);
                        }
                    }
                    if same {
                        // same concrete type and key path: replace the
                        // stored configuration, keep the element.
                        match &mut self.element_tree.nodes[c] {
                            Some(n) => { n.value.update_configuration(new_configuration) },
                            None => {},
                        }
                        proof {
                            crate::view::lemma_view_eq_reflexive(
                                self.elem(c as int).to_configuration_spec(),
                            );
                            old(self).element_tree.lemma_wf_same_structure(self.element_tree);
                            assert forall|i: int|
                                self.element_tree.live(i) implies self.element_ok(i) by {
                                assert(old(self).element_tree.live(i));
                                assert(old(self).element_ok(i));
                                if i != c {
                                    assert(self.elem(i) == old(self).elem(i));
                                }
                            }
                            assert forall|i: int, j: int|
                                self.element_tree.live(i) && self.element_tree.live(j) && i != j
                                    && (#[trigger] self.elem(i).render_id_spec()) is Some && (
                                #[trigger] self.elem(j).render_id_spec()) is Some implies self.elem(
                                i,
                            ).render_id_spec() != self.elem(j).render_id_spec() by {
                                assert(old(self).element_tree.live(i) && old(
                                    self,
                                ).element_tree.live(j));
                                assert(self.elem(i).render_id_spec() == old(self).elem(
                                    i,
                                ).render_id_spec());
                                assert(self.elem(j).render_id_spec() == old(self).elem(
                                    j,
                                ).render_id_spec());
                            }
                        }
                        Some(c)
                    } else {
                        self.deactive_child(c);
                        proof {
                            // the parent survives: an ancestor of `c`
                            // would need an index at least as large.
                            if old(self).element_tree.has_ancestor(parent as int, c as int) {
                                old(self).element_tree.lemma_ancestor_le(parent as int, c as int);
                            }
                            assert(self.element_tree.live(parent as int));
                            assert(self.element_tree.children_of(parent as int).len() == 0);
                        }
                        let ghost m = *self;
                        let r2 = self.inflate_view(new_configuration, parent);
                        proof {
                            assert(old(self).deactivated(m, c as int));
                            assert(m.inflated(
                                *self,
                                parent as int,
                                new_configuration,
                                m.element_tree.spec_len(),
                            ));
                        }
                        r2
                    }
                }
            },
        }
    }

    /// Instantiate the view `v` as a fresh element subtree mounted as the
    /// new last child of `parent`: create the element, link it, let a
    /// composite build and reconcile its single child, let a render
    /// element attach its render object and inflate its declared
    /// children, and finally mark the element mounted.
    pub fn inflate_view(&mut self, v: UiView, parent: ElementId) -> (r: Option<ElementId>)
        requires
            old(self).wf(),
            old(self).element_tree.live(parent as int),
            old(self).elem(parent as int).is_composite() ==> old(self).element_tree.children_of(
                parent as int,
            ).len() == 0,
        ensures
            final(self).wf(),
            v is Empty ==> r is None && final(self).ctx_same(*old(self)),
            !(v is Empty) ==> r == Some(old(self).element_tree.spec_len() as ElementId) && old(
                self,
            ).inflated(*final(self), parent as int, v, old(self).element_tree.spec_len()),
        decreases v, 0int,
    {
        match v {
            UiView::Empty => None,
            UiView::Stateless(config) => {
                let crate::view::Configuration { key_path, view: payload } = config;
                let crate::view::StatelessConfiguration { type_id, props, child } = payload;
                let child_view: UiView = *child;
                let stored = UiView::Stateless(
                    crate::view::Configuration {
                        key_path,
                        view: crate::view::StatelessConfiguration {
                            type_id,
                            props,
                            child: Box::new(child_view.clone()),
                        },
                    },
                );
                let ghost gstored = stored;
                let id_opt = stored.into_element(&mut self.element_tree);
                let id = id_opt.unwrap();
                let ghost sa = *self;
                proof {
                    self.lemma_wf_after_into_element(*old(self), id as int);
                }
                self.element_tree.append(parent, id);
                proof {
                    self.lemma_wf_after_append(*old(self), parent as int, id as int);
                }
                let ghost sb = *self;
                let ghost cv = child_view;
                let child_id = self.update_child(id, None, child_view);
                let ghost sc = *self;
                proof {
                    Self::lemma_reconcile_to_frames(sb, sc, id as int, cv, child_id);
                    assert(sb.elem(id as int) == sa.elem(id as int));
                    assert(sb.element_tree.live(id as int));
                    assert(self.element_tree.live(id as int));
                    assert(self.elem(id as int) == sb.elem(id as int));
                }
                self.set_mounted(id);
                proof {
                    let pre = *old(self);
                    let fin = *self;
                    Self::lemma_inflate_frames(pre, sa, sb, sc, fin, parent as int, id as int);
                    assert(sb.elem(id as int) == sa.elem(id as int));
                    assert(sb.element_tree.live(id as int));
                    assert(sc.elem(id as int) == sb.elem(id as int));
                    assert(crate::view::view_eq(gstored, v)) by {
                        assert(crate::view::view_eq(*gstored->Stateless_0.view.child, cv));
                    }
                    assert(sc.elem(id as int).to_configuration_spec() == gstored);
                    assert(fin.elem(id as int).to_configuration_spec() == sc.elem(
                        id as int,
                    ).to_configuration_spec());
                    assert(crate::view::view_eq(fin.elem(id as int).to_configuration_spec(), v));
                    assert(fin.elem(id as int) is Stateless);
                    Self::lemma_composite_child_represented(sb, sc, fin, id, cv, child_id);
                    assert(fin.represents(id as int, v));
                    assert(fin.render_tree.spec_len() == sc.render_tree.spec_len());
                    assert(fin.render_tree.spec_len() == pre.render_tree.spec_len()
                        + crate::view::render_count(v));
                    assert forall|t: int|
                        pre.render_tree.spec_len() <= t < fin.render_tree.spec_len()
                        implies (#[trigger] fin.render_tree.live(t)) by {
                        assert(sc.render_tree.live(t));
                        assert(fin.render_tree.nodes@[t] == sc.render_tree.nodes@[t]);
                    }
                }
                Some(id)
            },
            UiView::Stateful(config) => {
                let crate::view::Configuration { key_path, view: payload } = config;
                let crate::view::StatefulConfiguration { type_id, props, initial_state, child } =
                    payload;
                let child_view: UiView = *child;
                let stored = UiView::Stateful(
                    crate::view::Configuration {
                        key_path,
                        view: crate::view::StatefulConfiguration {
                            type_id,
                            props,
                            initial_state,
                            child: Box::new(child_view.clone()),
                        },
                    },
                );
                let ghost gstored = stored;
                let id_opt = stored.into_element(&mut self.element_tree);
                let id = id_opt.unwrap();
                let ghost sa = *self;
                proof {
                    self.lemma_wf_after_into_element(*old(self), id as int);
                }
                self.element_tree.append(parent, id);
                proof {
                    self.lemma_wf_after_append(*old(self), parent as int, id as int);
                }
                let ghost sb = *self;
                let ghost cv = child_view;
                let child_id = self.update_child(id, None, child_view);
                let ghost sc = *self;
                proof {
                    Self::lemma_reconcile_to_frames(sb, sc, id as int, cv, child_id);
                    assert(sb.elem(id as int) == sa.elem(id as int));
                    assert(sb.element_tree.live(id as int));
                    assert(self.element_tree.live(id as int));
                    assert(self.elem(id as int) == sb.elem(id as int));
                }
                self.set_mounted(id);
                proof {
                    let pre = *old(self);
                    let fin = *self;
                    Self::lemma_inflate_frames(pre, sa, sb, sc, fin, parent as int, id as int);
                    assert(sb.elem(id as int) == sa.elem(id as int));
                    assert(sb.element_tree.live(id as int));
                    assert(sc.elem(id as int) == sb.elem(id as int));
                    assert(crate::view::view_eq(gstored, v)) by {
                        assert(crate::view::view_eq(*gstored->Stateful_0.view.child, cv));
                    }
                    assert(sc.elem(id as int).to_configuration_spec() == gstored);
                    assert(fin.elem(id as int).to_configuration_spec() == sc.elem(
                        id as int,
                    ).to_configuration_spec());
                    assert(crate::view::view_eq(fin.elem(id as int).to_configuration_spec(), v));
                    assert(fin.elem(id as int) is Stateful);
                    assert(fin.elem(id as int)->Stateful_0.state == sc.elem(
                        id as int,
                    )->Stateful_0.state);
                    Self::lemma_composite_child_represented(sb, sc, fin, id, cv, child_id);
                    assert(fin.represents(id as int, v));
                    assert(fin.render_tree.spec_len() == sc.render_tree.spec_len());
                    assert(fin.render_tree.spec_len() == pre.render_tree.spec_len()
                        + crate::view::render_count(v));
                    assert forall|t: int|
                        pre.render_tree.spec_len() <= t < fin.render_tree.spec_len()
                        implies (#[trigger] fin.render_tree.live(t)) by {
                        assert(sc.render_tree.live(t));
                        assert(fin.render_tree.nodes@[t] == sc.render_tree.nodes@[t]);
                    }
                }
                Some(id)
            },
            UiView::RenderObject(config) => {
                let crate::view::Configuration { key_path, view: payload } = config;
                let crate::view::RenderObjectConfiguration {
                    type_id,
                    props,
                    render_object,
                    children,
                } = payload;
                let stored = UiView::RenderObject(
                    crate::view::Configuration {
                        key_path,
                        view: crate::view::RenderObjectConfiguration {
                            type_id,
                            props,
                            render_object,
                            children: crate::view::clone_views(&children),
                        },
                    },
                );
                let ghost gstored = stored;
                let id_opt = stored.into_element(&mut self.element_tree);
                let id = id_opt.unwrap();
                let ghost sa = *self;
                proof {
                    self.lemma_wf_after_into_element(*old(self), id as int);
                }
                self.element_tree.append(parent, id);
                proof {
                    self.lemma_wf_after_append(*old(self), parent as int, id as int);
                }
                let ghost sb = *self;
                self.attach_render_object(id, render_object);
                let ghost s2 = *self;
                let ghost all_children = children@;
                let mut rest = children;
                let ghost done: int = 0;
                proof {
                    assert(all_children.take(0) =~= Seq::<UiView>::empty());
                    assert(crate::view::render_count_list(all_children.take(0)) == 0);
                }
                loop
                    invariant
                        self.wf(),
                        self.element_tree.live(id as int),
                        !(self.elem(id as int).is_composite()),
                        0 <= done <= all_children.len(),
                        rest@ == all_children.skip(done),
                        decreases_to!(v => all_children),
                        self.represents_list(
                            self.element_tree.children_of(id as int),
                            all_children.take(done),
                        ),
                        self.render_tree.spec_len() == s2.render_tree.spec_len()
                            + crate::view::render_count_list(all_children.take(done)),
                        forall|t: int|
                            sb.render_tree.spec_len() <= t < self.render_tree.spec_len() ==> (
                            #[trigger] self.render_tree.live(t)),
                        // frame against the state right after attaching.
                        self.element_tree.spec_len() >= s2.element_tree.spec_len(),
                        forall|j: int|
                            0 <= j < s2.element_tree.spec_len() ==> ((
                            #[trigger] self.element_tree.live(j)) == s2.element_tree.live(j)),
                        forall|j: int|
                            #[trigger] s2.element_tree.live(j) ==> self.elem(j) == s2.elem(j)
                                && self.element_tree.parent_of(j) == s2.element_tree.parent_of(j),
                        forall|j: int|
                            #[trigger] s2.element_tree.live(j) && j != id
                                ==> self.element_tree.children_of(j) == s2.element_tree.children_of(
                                j,
                            ),
                        self.render_tree.spec_len() >= s2.render_tree.spec_len(),
                        forall|t: int|
                            0 <= t < s2.render_tree.spec_len() ==> ((
                            #[trigger] self.render_tree.live(t)) == s2.render_tree.live(t)),
                        forall|t: int|
                            #[trigger] s2.render_tree.live(t) ==> self.render_tree.value_of(t)
                                == s2.render_tree.value_of(t) && self.render_tree.parent_of(t)
                                == s2.render_tree.parent_of(t),
                        forall|t: int|
                            #[trigger] s2.render_tree.live(t) ==> self.render_tree.children_of(
                                t,
                            ).len() >= s2.render_tree.children_of(t).len() && (forall|w: int|
                                0 <= w < s2.render_tree.children_of(t).len()
                                    ==> self.render_tree.children_of(t)[w]
                                    == s2.render_tree.children_of(t)[w]),
                    ensures
                        rest@.len() == 0,
                    decreases all_children.len() - done,
                {
                    if rest.len() == 0 {
                        break;
                    }
                    let ghost pre_step = *self;
                    let c0 = rest.remove(0);
                    let ghost gc0 = c0;
                    proof {
                        assert(c0 == all_children[done]);
                        assert(decreases_to!(all_children => all_children[done]));
                    }
                    let _ = self.inflate_view(c0, id);
                    proof {
                        // the subtrees inflated for earlier siblings are
                        // untouched by this step.
                        let kids_old = pre_step.element_tree.children_of(id as int);
                        assert forall|j: int|
                            0 <= j < pre_step.element_tree.spec_len() implies ((
                        #[trigger] self.element_tree.live(j)) == pre_step.element_tree.live(
                            j,
                        )) by {
                            if gc0 is Empty {
                                assert(self.element_tree.nodes@[j]
                                    == pre_step.element_tree.nodes@[j]);
                            }
                        }
                        assert forall|j: int|
                            pre_step.element_tree.live(j) implies self.elem(j) == pre_step.elem(j)
                            && self.element_tree.parent_of(j) == pre_step.element_tree.parent_of(
                            j,
                        ) by {
                            if gc0 is Empty {
                                assert(self.element_tree.nodes@[j]
                                    == pre_step.element_tree.nodes@[j]);
                            }
                        }
                        assert forall|j: int|
                            pre_step.element_tree.live(j) && j != id
                            implies self.element_tree.children_of(j)
                            == pre_step.element_tree.children_of(j) by {
                            if gc0 is Empty {
                                assert(self.element_tree.nodes@[j]
                                    == pre_step.element_tree.nodes@[j]);
                            }
                        }
                        assert forall|r: int|
                            0 <= r < pre_step.render_tree.spec_len() implies ((
                        #[trigger] self.render_tree.live(r)) == pre_step.render_tree.live(r)) by {
                            if gc0 is Empty {
                                assert(self.render_tree.nodes@[r]
                                    == pre_step.render_tree.nodes@[r]);
                            }
                        }
                        assert forall|r: int|
                            pre_step.render_tree.live(r) implies self.render_tree.value_of(r)
                            == pre_step.render_tree.value_of(r) && self.render_tree.parent_of(r)
                            == pre_step.render_tree.parent_of(r) by {
                            if gc0 is Empty {
                                assert(self.render_tree.nodes@[r]
                                    == pre_step.render_tree.nodes@[r]);
                            }
                        }
                        assert forall|w: int|
                            0 <= w < kids_old.len() implies pre_step.element_tree.live(
                            #[trigger] kids_old[w] as int,
                        ) && pre_step.agrees_below(*self, kids_old[w] as int) by {
                            assert(pre_step.element_tree.children_of(id as int).contains(
                                kids_old[w],
                            ));
                            pre_step.element_tree.lemma_child_edge(id as int, kids_old[w]);
                            Self::lemma_agrees_below_from_frames(
                                pre_step,
                                *self,
                                kids_old[w] as int,
                                id as int,
                            );
                        }
                        pre_step.lemma_represents_list_stable(
                            *self,
                            kids_old,
                            all_children.take(done),
                        );
                        assert(all_children.take(done + 1) =~= all_children.take(done).push(
                            all_children[done],
                        ));
                        crate::view::lemma_render_count_list_snoc(
                            all_children.take(done),
                            all_children[done],
                        );
                        assert(self.render_tree.spec_len() == pre_step.render_tree.spec_len()
                            + crate::view::render_count(gc0));
                        assert forall|t: int|
                            sb.render_tree.spec_len() <= t < self.render_tree.spec_len()
                            implies (#[trigger] self.render_tree.live(t)) by {
                            if t < pre_step.render_tree.spec_len() {
                                assert(pre_step.render_tree.live(t));
                                assert(self.render_tree.live(t) == pre_step.render_tree.live(t));
                            }
                        }
                        if gc0 is Empty {
                            assert(self.ctx_same(pre_step));
                            assert(self.element_tree.nodes@[id as int]
                                == pre_step.element_tree.nodes@[id as int]);
                            assert(self.element_tree.children_of(id as int) == kids_old);
                            self.lemma_represents_list_snoc_empty(
                                kids_old,
                                all_children.take(done),
                            );
                            assert(self.represents_list(
                                self.element_tree.children_of(id as int),
                                all_children.take(done + 1),
                            ));
                        } else {
                            let newkid = pre_step.element_tree.spec_len();
                            assert(pre_step.inflated(*self, id as int, gc0, newkid));
                            assert(self.represents(newkid, gc0));
                            assert(self.element_tree.children_of(id as int) == kids_old.push(
                                newkid as usize,
                            ));
                            vstd::std_specs::vec::axiom_spec_len(
                                &pre_step.element_tree.nodes,
                            );
                            assert((newkid as usize) as int == newkid);
                            assert(self.represents((newkid as usize) as int, gc0));
                            self.lemma_represents_list_snoc(
                                kids_old,
                                all_children.take(done),
                                newkid as usize,
                                gc0,
                            );
                            assert(self.represents_list(
                                self.element_tree.children_of(id as int),
                                all_children.take(done + 1),
                            ));
                        }
                        done = done + 1;
                        assert(rest@ == all_children.skip(done));
                        assert forall|j: int|
                            0 <= j < s2.element_tree.spec_len() implies ((
                        #[trigger] self.element_tree.live(j)) == s2.element_tree.live(j)) by {
                            assert(pre_step.element_tree.live(j) == s2.element_tree.live(j));
                            assert(self.element_tree.live(j) == pre_step.element_tree.live(j));
                        }
                        assert forall|j: int|
                            #[trigger] s2.element_tree.live(j) implies self.elem(j) == s2.elem(j)
                            && self.element_tree.parent_of(j) == s2.element_tree.parent_of(
                            j,
                        ) by {
                            assert(pre_step.element_tree.live(j));
                        }
                        assert forall|j: int|
                            #[trigger] s2.element_tree.live(j) && j != id
                            implies self.element_tree.children_of(j) == s2.element_tree.children_of(
                            j,
                        ) by {
                            assert(pre_step.element_tree.live(j));
                        }
                        assert forall|t: int|
                            0 <= t < s2.render_tree.spec_len() implies ((
                        #[trigger] self.render_tree.live(t)) == s2.render_tree.live(t)) by {
                            assert(pre_step.render_tree.live(t) == s2.render_tree.live(t));
                            assert(self.render_tree.live(t) == pre_step.render_tree.live(t));
                        }
                        assert forall|t: int|
                            #[trigger] s2.render_tree.live(t) implies self.render_tree.value_of(t)
                            == s2.render_tree.value_of(t) && self.render_tree.parent_of(t)
                            == s2.render_tree.parent_of(t) by {
                            assert(pre_step.render_tree.live(t));
                        }
                        assert forall|t: int|
                            #[trigger] s2.render_tree.live(t) implies self.render_tree.children_of(
                            t,
                        ).len() >= s2.render_tree.children_of(t).len() && (forall|w: int|
                            0 <= w < s2.render_tree.children_of(t).len()
                                ==> self.render_tree.children_of(t)[w]
                                == s2.render_tree.children_of(t)[w]) by {
                            assert(pre_step.render_tree.live(t));
                            assert(self.render_tree.children_of(t).len()
                                >= pre_step.render_tree.children_of(t).len());
                            assert forall|w: int|
                                0 <= w < s2.render_tree.children_of(t).len()
                                implies self.render_tree.children_of(t)[w]
                                == s2.render_tree.children_of(t)[w] by {
                                assert(pre_step.render_tree.children_of(t)[w]
                                    == s2.render_tree.children_of(t)[w]);
                                assert(self.render_tree.children_of(t)[w]
                                    == pre_step.render_tree.children_of(t)[w]);
                            }
                        }
                    }
                }
                let ghost sc = *self;
                proof {
                    // fold the attach step and the child loop into one
                    // frame-preserving step from the state after linking.
                    assert(sb.element_tree.spec_len() == s2.element_tree.spec_len());
                    assert forall|j: int|
                        0 <= j < sb.element_tree.spec_len() implies ((
                    #[trigger] sc.element_tree.live(j)) == sb.element_tree.live(j)) by {
                        assert(s2.element_tree.live(j) == sb.element_tree.live(j));
                        assert(sc.element_tree.live(j) == s2.element_tree.live(j));
                    }
                    assert forall|j: int|
                        #[trigger] sb.element_tree.live(j) && j != id implies sc.elem(j)
                        == sb.elem(j) by {
                        assert(s2.elem(j) == sb.elem(j));
                        assert(s2.element_tree.live(j));
                        assert(sc.elem(j) == s2.elem(j));
                    }
                    assert forall|j: int|
                        #[trigger] sb.element_tree.live(j) implies sc.element_tree.parent_of(j)
                        == sb.element_tree.parent_of(j) by {
                        assert(s2.element_tree.parent_of(j) == sb.element_tree.parent_of(j));
                        assert(s2.element_tree.live(j));
                        assert(sc.element_tree.parent_of(j) == s2.element_tree.parent_of(j));
                    }
                    assert forall|j: int|
                        #[trigger] sb.element_tree.live(j) && j != id
                        implies sc.element_tree.children_of(j) == sb.element_tree.children_of(
                        j,
                    ) by {
                        assert(s2.element_tree.children_of(j) == sb.element_tree.children_of(j));
                        assert(s2.element_tree.live(j));
                        assert(sc.element_tree.children_of(j) == s2.element_tree.children_of(j));
                    }
                    assert forall|t: int|
                        0 <= t < sb.render_tree.spec_len() implies ((
                    #[trigger] sc.render_tree.live(t)) == sb.render_tree.live(t)) by {
                        assert(s2.render_tree.live(t) == sb.render_tree.live(t));
                        assert(sc.render_tree.live(t) == s2.render_tree.live(t));
                    }
                    assert forall|t: int|
                        #[trigger] sb.render_tree.live(t) implies sc.render_tree.value_of(t)
                        == sb.render_tree.value_of(t) && sc.render_tree.parent_of(t)
                        == sb.render_tree.parent_of(t) by {
                        assert(s2.render_tree.value_of(t) == sb.render_tree.value_of(t));
                        assert(s2.render_tree.parent_of(t) == sb.render_tree.parent_of(t));
                        assert(s2.render_tree.live(t));
                        assert(sc.render_tree.value_of(t) == s2.render_tree.value_of(t));
                    }
                    assert forall|t: int|
                        #[trigger] sb.render_tree.live(t) implies sc.render_tree.children_of(
                        t,
                    ).len() >= sb.render_tree.children_of(t).len() && (forall|w: int|
                        0 <= w < sb.render_tree.children_of(t).len()
                            ==> sc.render_tree.children_of(t)[w] == sb.render_tree.children_of(
                            t,
                        )[w]) by {
                        assert(s2.render_tree.live(t));
                        assert(s2.render_tree.children_of(t).len() >= sb.render_tree.children_of(
                            t,
                        ).len());
                        assert(sc.render_tree.children_of(t).len() >= s2.render_tree.children_of(
                            t,
                        ).len());
                        assert forall|w: int|
                            0 <= w < sb.render_tree.children_of(t).len()
                            implies sc.render_tree.children_of(t)[w] == sb.render_tree.children_of(
                            t,
                        )[w] by {
                            assert(s2.render_tree.children_of(t)[w] == sb.render_tree.children_of(
                                t,
                            )[w]);
                            assert(sc.render_tree.children_of(t)[w] == s2.render_tree.children_of(
                                t,
                            )[w]);
                        }
                    }
                    assert(sc.element_tree.live(id as int));
                    assert(s2.element_tree.live(id as int));
                    assert(sc.elem(id as int) == s2.elem(id as int));
                    assert(sc.elem(id as int) is Render && sc.elem(id as int).render_id_spec() is Some);
                }
                self.set_mounted(id);
                proof {
                    let pre = *old(self);
                    let fin = *self;
                    Self::lemma_inflate_frames(pre, sa, sb, sc, fin, parent as int, id as int);
                    assert(sb.elem(id as int) == sa.elem(id as int));
                    assert(s2.elem(id as int) == (Element::Render(
                        crate::element::RenderObjectElement {
                            id: sb.elem(id as int)->Render_0.id,
                            config: sb.elem(id as int)->Render_0.config,
                            render_object_id: Some(sb.render_tree.spec_len() as RenderObjectId),
                            mounted: sb.elem(id as int)->Render_0.mounted,
                        },
                    )));
                    assert(crate::view::view_eq(gstored, v)) by {
                        let cs = gstored->RenderObject_0.view.children;
                        let vs = v->RenderObject_0.view.children;
                        assert forall|k: int| 0 <= k < vs@.len() implies crate::view::view_eq(
                            #[trigger] cs@[k],
                            vs@[k],
                        ) by {}
                    }
                    assert(sc.elem(id as int).to_configuration_spec() == gstored);
                    assert(fin.elem(id as int).to_configuration_spec() == sc.elem(
                        id as int,
                    ).to_configuration_spec());
                    assert(crate::view::view_eq(fin.elem(id as int).to_configuration_spec(), v));
                    assert(fin.elem(id as int) is Render);
                    assert(fin.elem(id as int).render_id_spec() is Some);
                    assert(fin.elem(id as int).mounted_spec());
                    // the declared children list is fully instantiated.
                    assert(all_children.take(all_children.len() as int) =~= all_children);
                    assert(sc.represents_list(
                        sc.element_tree.children_of(id as int),
                        all_children,
                    ));
                    assert forall|r2: int|
                        0 <= r2 < sc.render_tree.spec_len() implies ((
                    #[trigger] fin.render_tree.live(r2)) == sc.render_tree.live(r2)) by {
                        assert(fin.render_tree.nodes@[r2] == sc.render_tree.nodes@[r2]);
                    }
                    assert forall|r2: int|
                        sc.render_tree.live(r2) implies fin.render_tree.value_of(r2)
                        == sc.render_tree.value_of(r2) && fin.render_tree.parent_of(r2)
                        == sc.render_tree.parent_of(r2) by {
                        assert(fin.render_tree.nodes@[r2] == sc.render_tree.nodes@[r2]);
                    }
                    let kids = sc.element_tree.children_of(id as int);
                    assert forall|w: int|
                        0 <= w < kids.len() implies sc.element_tree.live(
                        #[trigger] kids[w] as int,
                    ) && sc.agrees_below(fin, kids[w] as int) by {
                        assert(sc.element_tree.children_of(id as int).contains(kids[w]));
                        sc.element_tree.lemma_child_edge(id as int, kids[w]);
                        Self::lemma_agrees_below_from_frames(sc, fin, kids[w] as int, id as int);
                    }
                    sc.lemma_represents_list_stable(fin, kids, all_children);
                    assert(fin.element_tree.children_of(id as int)
                        == sc.element_tree.children_of(id as int));
                    // the fresh render node keeps its value and placement
                    // through the children loop and the mounted flag.
                    let rid = sb.render_tree.spec_len();
                    vstd::std_specs::vec::axiom_spec_len(&sb.render_tree.nodes);
                    assert((rid as RenderObjectId) as int == rid);
                    assert(s2.render_tree.value_of(rid) == (RenderObject {
                        id: Some(rid as RenderObjectId),
                        lifecycle: render_object,
                    }));
                    assert(s2.render_tree.parent_of(rid) == sb.nearest_render_ancestor(
                        id as int,
                    ));
                    assert(s2.render_tree.live(rid));
                    assert(sc.render_tree.live(rid) && sc.render_tree.value_of(rid)
                        == s2.render_tree.value_of(rid) && sc.render_tree.parent_of(rid)
                        == s2.render_tree.parent_of(rid));
                    assert(fin.render_tree.live(rid) && fin.render_tree.value_of(rid)
                        == sc.render_tree.value_of(rid) && fin.render_tree.parent_of(rid)
                        == sc.render_tree.parent_of(rid));
                    assert(fin.elem(id as int).render_id_spec() == Some(rid as RenderObjectId));
                    // the nearest render ancestor of the fresh element is
                    // untouched by building its subtree.
                    assert forall|j: int|
                        j < id as int implies ((#[trigger] fin.element_tree.live(j))
                        == sb.element_tree.live(j)) by {
                        if 0 <= j {
                            assert(s2.element_tree.live(j) == sb.element_tree.live(j));
                            assert(sc.element_tree.live(j) == s2.element_tree.live(j));
                            assert(fin.element_tree.live(j) == sc.element_tree.live(j));
                        }
                    }
                    assert forall|j: int|
                        sb.element_tree.live(j) && j < id as int
                        implies fin.element_tree.parent_of(j) == sb.element_tree.parent_of(j)
                        && fin.elem(j).render_id_spec() == sb.elem(j).render_id_spec() by {
                        assert(s2.elem(j) == sb.elem(j));
                        assert(s2.element_tree.parent_of(j) == sb.element_tree.parent_of(j));
                        assert(s2.element_tree.live(j));
                        assert(sc.elem(j) == s2.elem(j));
                        assert(sc.element_tree.parent_of(j) == s2.element_tree.parent_of(j));
                        assert(sc.element_tree.live(j));
                        assert(fin.elem(j) == sc.elem(j));
                        assert(fin.element_tree.parent_of(j) == sc.element_tree.parent_of(j));
                    }
                    assert(fin.element_tree.parent_of(id as int) == sb.element_tree.parent_of(
                        id as int,
                    ));
                    fin.lemma_nearest_unchanged(sb, id as int);
                    assert(fin.nearest_render_ancestor(id as int) == sb.nearest_render_ancestor(
                        id as int,
                    ));
                    assert(fin.represents(id as int, v));
                    // one node for this element plus those of its children.
                    assert(all_children.take(all_children.len() as int) =~= all_children);
                    assert(fin.render_tree.spec_len() == sc.render_tree.spec_len());
                    assert(sc.render_tree.spec_len() == s2.render_tree.spec_len()
                        + crate::view::render_count_list(all_children));
                    assert(s2.render_tree.spec_len() == sb.render_tree.spec_len() + 1);
                    assert(fin.render_tree.spec_len() == pre.render_tree.spec_len()
                        + crate::view::render_count(v));
                    assert forall|t: int|
                        pre.render_tree.spec_len() <= t < fin.render_tree.spec_len()
                        implies (#[trigger] fin.render_tree.live(t)) by {
                        assert(sc.render_tree.live(t));
                        assert(fin.render_tree.nodes@[t] == sc.render_tree.nodes@[t]);
                    }
                }
                Some(id)
            },
        }
    }

    /// The outcome of reconciliation depends on the built view only up
    /// to structural equality.
    proof fn lemma_reconcile_post_view_eq(
        self,
        post: FrameworkContext,
        parent: int,
        child: Option<ElementId>,
        v1: UiView,
        v2: UiView,
        r: Option<ElementId>,
    )
        requires
            crate::view::view_eq(v1, v2),
            self.reconcile_post(post, parent, child, v1, r),
        ensures
            self.reconcile_post(post, parent, child, v2, r),
    {
        crate::view::lemma_view_eq_shape(v1, v2);
        crate::view::lemma_view_eq_sym(v1, v2);
        match child {
            None => {
                if !(v1 is Empty) {
                    self.lemma_inflated_view_eq(
                        post,
                        parent,
                        v1,
                        v2,
                        self.element_tree.spec_len(),
                    );
                }
            },
            Some(c) => {
                if v1 is Empty {
                } else {
                    let stored = self.elem(c as int).to_configuration_spec();
                    if crate::view::view_eq(stored, v1) {
                        crate::view::lemma_view_eq_trans(stored, v1, v2);
                    } else {
                        if crate::view::view_eq(stored, v2) {
                            crate::view::lemma_view_eq_trans(stored, v2, v1);
                            assert(false);
                        }
                        assert(stored.same_type_spec(v1) == stored.same_type_spec(v2)) by {
                            crate::view::lemma_view_eq_shape(v1, v2);
                            match (stored, v1, v2) {
                                (
                                    UiView::Stateful(a),
                                    UiView::Stateful(b),
                                    UiView::Stateful(cc),
                                ) => {},
                                (
                                    UiView::Stateless(a),
                                    UiView::Stateless(b),
                                    UiView::Stateless(cc),
                                ) => {},
                                (
                                    UiView::RenderObject(a),
                                    UiView::RenderObject(b),
                                    UiView::RenderObject(cc),
                                ) => {},
                                _ => {},
                            }
                        }
                        if stored.same_type_spec(v1) && Some(self.elem(c as int).key_path_spec())
                            == v1.key_path_spec() {
                            crate::view::lemma_view_eq_trans(
                                post.elem(c as int).to_configuration_spec(),
                                v1,
                                v2,
                            );
                        } else {
                            let m = choose|m: FrameworkContext|
                                (#[trigger] self.deactivated(m, c as int)) && m.wf() && m.inflated(
                                    post,
                                    parent,
                                    v1,
                                    m.element_tree.spec_len(),
                                );
                            m.lemma_inflated_view_eq(
                                post,
                                parent,
                                v1,
                                v2,
                                m.element_tree.spec_len(),
                            );
                        }
                    }
                }
            },
        }
    }

    /// Inflation results depend on the view only up to structural
    /// equality.
    proof fn lemma_inflated_view_eq(
        self,
        post: FrameworkContext,
        parent: int,
        v1: UiView,
        v2: UiView,
        fid: int,
    )
        requires
            crate::view::view_eq(v1, v2),
            self.inflated(post, parent, v1, fid),
        ensures
            self.inflated(post, parent, v2, fid),
    {
        crate::view::lemma_view_eq_shape(v1, v2);
        crate::view::lemma_view_eq_trans(post.elem(fid).to_configuration_spec(), v1, v2);
        post.lemma_represents_view_eq(fid, v1, v2);
        crate::view::lemma_render_count_view_eq(v1, v2);
        if v1 is Stateful {
            assert(v1->Stateful_0.view.type_id == v2->Stateful_0.view.type_id);
            assert(v1->Stateful_0.view.initial_state == v2->Stateful_0.view.initial_state);
        }
    }

    /// A reconciliation of an empty child slot leaves everything that
    /// existed before in place: read the frame conditions back out of
    /// the decision-table relation.
    proof fn lemma_reconcile_to_frames(
        sb: FrameworkContext,
        sc: FrameworkContext,
        fid: int,
        cv: UiView,
        r: Option<ElementId>,
    )
        requires
            sb.reconcile_post(sc, fid, None, cv, r),
        ensures
            sc.element_tree.spec_len() >= sb.element_tree.spec_len(),
            forall|j: int|
                0 <= j < sb.element_tree.spec_len() ==> ((#[trigger] sc.element_tree.live(j))
                    == sb.element_tree.live(j)),
            forall|j: int| #[trigger] sb.element_tree.live(j) ==> sc.elem(j) == sb.elem(j),
            forall|j: int|
                #[trigger] sb.element_tree.live(j) ==> sc.element_tree.parent_of(j)
                    == sb.element_tree.parent_of(j),
            forall|j: int|
                #[trigger] sb.element_tree.live(j) && j != fid ==> sc.element_tree.children_of(j)
                    == sb.element_tree.children_of(j),
            sc.render_tree.spec_len() >= sb.render_tree.spec_len(),
            forall|t: int|
                0 <= t < sb.render_tree.spec_len() ==> ((#[trigger] sc.render_tree.live(t))
                    == sb.render_tree.live(t)),
            forall|t: int|
                #[trigger] sb.render_tree.live(t) ==> sc.render_tree.value_of(t)
                    == sb.render_tree.value_of(t) && sc.render_tree.parent_of(t)
                    == sb.render_tree.parent_of(t),
            forall|t: int|
                #[trigger] sb.render_tree.live(t) ==> sc.render_tree.children_of(t).len()
                    >= sb.render_tree.children_of(t).len() && (forall|w: int|
                    0 <= w < sb.render_tree.children_of(t).len()
                        ==> sc.render_tree.children_of(t)[w] == sb.render_tree.children_of(t)[w]),
            sc.render_tree.spec_len() == sb.render_tree.spec_len() + crate::view::render_count(
                cv,
            ),
            forall|t: int|
                sb.render_tree.spec_len() <= t < sc.render_tree.spec_len() ==> (
                #[trigger] sc.render_tree.live(t)),
    {
        if cv is Empty {
            assert(sc.ctx_same(sb));
            assert forall|j: int|
                0 <= j < sb.element_tree.spec_len() implies ((#[trigger] sc.element_tree.live(j))
                == sb.element_tree.live(j)) by {
                assert(sc.element_tree.nodes@[j] == sb.element_tree.nodes@[j]);
            }
            assert forall|j: int|
                #[trigger] sb.element_tree.live(j) implies sc.elem(j) == sb.elem(j)
                && sc.element_tree.parent_of(j) == sb.element_tree.parent_of(j)
                && sc.element_tree.children_of(j) == sb.element_tree.children_of(j) by {
                assert(sc.element_tree.nodes@[j] == sb.element_tree.nodes@[j]);
            }
            assert forall|t: int|
                0 <= t < sb.render_tree.spec_len() implies ((#[trigger] sc.render_tree.live(t))
                == sb.render_tree.live(t)) by {
                assert(sc.render_tree.nodes@[t] == sb.render_tree.nodes@[t]);
            }
            assert forall|t: int|
                #[trigger] sb.render_tree.live(t) implies sc.render_tree.value_of(t)
                == sb.render_tree.value_of(t) && sc.render_tree.parent_of(t)
                == sb.render_tree.parent_of(t) && sc.render_tree.children_of(t)
                == sb.render_tree.children_of(t) by {
                assert(sc.render_tree.nodes@[t] == sb.render_tree.nodes@[t]);
            }
        } else {
            assert(sb.inflated(sc, fid, cv, sb.element_tree.spec_len()));
        }
    }

    /// The child slot of a composite element: its single arena child, if
    /// one exists.
    pub open spec fn child_slot(self, id: int) -> Option<ElementId> {
        if self.element_tree.children_of(id).len() == 0 {
            None
        } else {
            Some(self.element_tree.children_of(id)[0])
        }
    }

    /// The single child of a composite element, if one exists.
    pub fn child_id(&self, id: ElementId) -> (r: Option<ElementId>)
        requires
            self.wf(),
            self.element_tree.live(id as int),
        ensures
            r == self.child_slot(id as int),
    {
        let ch = self.element_tree.children(id);
        if ch.len() == 0 {
            None
        } else {
            Some(ch[0])
        }
    }

    /// Borrow the child element of a composite element, if one exists.
    pub fn child(&self, id: ElementId) -> (r: Option<&Element>)
        requires
            self.wf(),
            self.element_tree.live(id as int),
        ensures
            match self.child_slot(id as int) {
                Some(c) => r matches Some(e) && *e == self.elem(c as int),
                None => r is None,
            },
    {
        let c = match self.child_id(id) {
            Some(c) => c,
            None => { return None },
        };
        proof {
            assert(self.element_tree.children_of(id as int).contains(c));
            self.element_tree.lemma_child_edge(id as int, c);
        }
        Some(self.element_tree.get(c).value())
    }

    /// Rebuild a composite element: ask its payload (or, for a stateful
    /// element, its retained state's payload) to build the child view,
    /// then reconcile that view against the existing child slot.
    pub fn composite_rebuild(&mut self, id: ElementId)
        requires
            old(self).wf(),
            old(self).element_tree.live(id as int),
            old(self).elem(id as int).is_composite(),
            old(self).elem(id as int) matches Element::Stateful(e) ==> !e.building,
        ensures
            final(self).wf(),
            exists|r: Option<ElementId>|
                old(self).reconcile_post(
                    *final(self),
                    id as int,
                    old(self).child_slot(id as int),
                    old(self).elem(id as int).build_spec(),
                    r,
                ),
    {
        // build: in this model the payload's build step hands back the
        // child view it carries.
        let new_configuration = match self.element_tree.get(id).value() {
            Element::Stateful(e) => (&*e.config.view.child).clone(),
            Element::Stateless(e) => (&*e.config.view.child).clone(),
            Element::Render(_) => UiView::Empty,
        };
        let child = {
            let ch = self.element_tree.children(id);
            if ch.len() == 0 {
                None
            } else {
                Some(ch[0])
            }
        };
        proof {
            assert(old(self).element_ok(id as int));
        }
        let r = self.update_child(id, child, new_configuration);
        proof {
            old(self).lemma_reconcile_post_view_eq(
                *self,
                id as int,
                child,
                new_configuration,
                old(self).elem(id as int).build_spec(),
                r,
            );
        }
    }

    /// Rebuild a freshly created render element: materialise its render
    /// object, attach it under the nearest render ancestor, and inflate
    /// every child view the payload declares.
    pub fn render_rebuild(&mut self, id: ElementId)
        requires
            old(self).wf(),
            old(self).element_tree.live(id as int),
            old(self).elem(id as int) is Render,
            old(self).elem(id as int).render_id_spec() is None,
            old(self).element_tree.children_of(id as int).len() == 0,
        ensures
            final(self).wf(),
            final(self).element_tree.live(id as int),
            final(self).elem(id as int) is Render,
            final(self).elem(id as int).to_configuration_spec() == old(self).elem(
                id as int,
            ).to_configuration_spec(),
            final(self).elem(id as int).mounted_spec() == old(self).elem(
                id as int,
            ).mounted_spec(),
            final(self).element_tree.parent_of(id as int) == old(self).element_tree.parent_of(
                id as int,
            ),
            // exactly one render object is created for this element: it
            // carries the payload's render value and hangs under the
            // render object of the nearest render ancestor.
            final(self).elem(id as int).render_id_spec() == Some(
                old(self).render_tree.spec_len() as RenderObjectId,
            ),
            final(self).render_tree.spec_len() >= old(self).render_tree.spec_len() + 1,
            final(self).render_tree.live(old(self).render_tree.spec_len()),
            final(self).render_tree.value_of(old(self).render_tree.spec_len()) == (RenderObject {
                id: Some(old(self).render_tree.spec_len() as RenderObjectId),
                lifecycle: old(self).elem(id as int)->Render_0.config.view.render_object,
            }),
            final(self).render_tree.parent_of(old(self).render_tree.spec_len()) == old(
                self,
            ).nearest_render_ancestor(id as int),
            // every declared child view is inflated in order as a mounted
            // child element, empty views yielding none.
            final(self).represents_list(
                final(self).element_tree.children_of(id as int),
                old(self).elem(id as int)->Render_0.config.view.children@,
            ),
            final(self).render_tree.spec_len() == old(self).render_tree.spec_len() + 1
                + crate::view::render_count_list(
                old(self).elem(id as int)->Render_0.config.view.children@,
            ),
            forall|t: int|
                old(self).render_tree.spec_len() <= t < final(self).render_tree.spec_len() ==> (
                #[trigger] final(self).render_tree.live(t)),
            forall|j: int|
                0 <= j < old(self).element_tree.spec_len() ==> ((#[trigger] final(self).element_tree.live(j)) == old(self).element_tree.live(j)),
            forall|j: int|
                #[trigger] old(self).element_tree.live(j) && j != id ==> final(self).elem(j)
                    == old(self).elem(j) && final(self).element_tree.children_of(j) == old(
                    self,
                ).element_tree.children_of(j),
            forall|j: int|
                #[trigger] old(self).element_tree.live(j) ==> final(self).element_tree.parent_of(
                    j,
                ) == old(self).element_tree.parent_of(j),
            forall|t: int|
                0 <= t < old(self).render_tree.spec_len() ==> ((#[trigger] final(self).render_tree.live(t)) == old(self).render_tree.live(t)),
            forall|t: int|
                #[trigger] old(self).render_tree.live(t) ==> final(self).render_tree.value_of(t)
                    == old(self).render_tree.value_of(t) && final(self).render_tree.parent_of(t)
                    == old(self).render_tree.parent_of(t),
    {
        let (render_object, views) = match self.element_tree.get(id).value() {
            Element::Render(e) => (
                e.config.view.render_object,
                crate::view::clone_views(&e.config.view.children),
            ),
            _ => (0u64, Vec::new()),
        };
        let ghost all_views = views@;
        let ghost stored_children = old(self).elem(id as int)->Render_0.config.view.children@;
        let ghost rid = old(self).render_tree.spec_len();
        self.attach_render_object(id, render_object);
        let ghost s2 = *self;
        let mut rest = views;
        let ghost done: int = 0;
        proof {
            assert(stored_children.take(0) =~= Seq::<UiView>::empty());
            assert(crate::view::render_count_list(stored_children.take(0)) == 0);
        }
        loop
            invariant
                self.wf(),
                self.element_tree.live(id as int),
                !(self.elem(id as int).is_composite()),
                0 <= done <= all_views.len(),
                rest@ == all_views.skip(done),
                self.render_tree.spec_len() == s2.render_tree.spec_len()
                    + crate::view::render_count_list(stored_children.take(done)),
                forall|t: int|
                    rid <= t < self.render_tree.spec_len() ==> (#[trigger] self.render_tree.live(
                        t,
                    )),
                all_views.len() == stored_children.len(),
                forall|k: int|
                    0 <= k < all_views.len() ==> crate::view::view_eq(
                        #[trigger] all_views[k],
                        stored_children[k],
                    ),
                self.represents_list(
                    self.element_tree.children_of(id as int),
                    stored_children.take(done),
                ),
                self.element_tree.spec_len() >= s2.element_tree.spec_len(),
                forall|j: int|
                    0 <= j < s2.element_tree.spec_len() ==> ((
                    #[trigger] self.element_tree.live(j)) == s2.element_tree.live(j)),
                forall|j: int|
                    #[trigger] s2.element_tree.live(j) ==> self.elem(j) == s2.elem(j)
                        && self.element_tree.parent_of(j) == s2.element_tree.parent_of(j),
                forall|j: int|
                    #[trigger] s2.element_tree.live(j) && j != id
                        ==> self.element_tree.children_of(j) == s2.element_tree.children_of(j),
                self.render_tree.spec_len() >= s2.render_tree.spec_len(),
                forall|t: int|
                    0 <= t < s2.render_tree.spec_len() ==> ((#[trigger] self.render_tree.live(t))
                        == s2.render_tree.live(t)),
                forall|t: int|
                    #[trigger] s2.render_tree.live(t) ==> self.render_tree.value_of(t)
                        == s2.render_tree.value_of(t) && self.render_tree.parent_of(t)
                        == s2.render_tree.parent_of(t),
            ensures
                rest@.len() == 0,
            decreases rest@.len(),
        {
            if rest.len() == 0 {
                break;
            }
            let ghost pre_step = *self;
            let c0 = rest.remove(0);
            let ghost gc0 = c0;
            proof {
                assert(c0 == all_views[done]);
            }
            let _ = self.inflate_view(c0, id);
            proof {
                assert forall|j: int|
                    0 <= j < s2.element_tree.spec_len() implies ((
                #[trigger] self.element_tree.live(j)) == s2.element_tree.live(j)) by {
                    assert(pre_step.element_tree.live(j) == s2.element_tree.live(j));
                    assert(self.element_tree.live(j) == pre_step.element_tree.live(j));
                }
                assert forall|j: int|
                    #[trigger] s2.element_tree.live(j) implies self.elem(j) == s2.elem(j)
                    && self.element_tree.parent_of(j) == s2.element_tree.parent_of(j) by {
                    assert(pre_step.element_tree.live(j));
                }
                assert forall|j: int|
                    #[trigger] s2.element_tree.live(j) && j != id
                    implies self.element_tree.children_of(j) == s2.element_tree.children_of(
                    j,
                ) by {
                    assert(pre_step.element_tree.live(j));
                }
                assert forall|t: int|
                    0 <= t < s2.render_tree.spec_len() implies ((#[trigger] self.render_tree.live(
                    t,
                )) == s2.render_tree.live(t)) by {
                    assert(pre_step.render_tree.live(t) == s2.render_tree.live(t));
                    assert(self.render_tree.live(t) == pre_step.render_tree.live(t));
                }
                assert forall|t: int|
                    #[trigger] s2.render_tree.live(t) implies self.render_tree.value_of(t)
                    == s2.render_tree.value_of(t) && self.render_tree.parent_of(t)
                    == s2.render_tree.parent_of(t) by {
                    assert(pre_step.render_tree.live(t));
                }
                // the subtrees inflated for earlier siblings are
                // untouched by this step.
                let kids_old = pre_step.element_tree.children_of(id as int);
                assert forall|j: int|
                    0 <= j < pre_step.element_tree.spec_len() implies ((
                #[trigger] self.element_tree.live(j)) == pre_step.element_tree.live(j)) by {
                    if gc0 is Empty {
                        assert(self.element_tree.nodes@[j] == pre_step.element_tree.nodes@[j]);
                    }
                }
                assert forall|j: int|
                    pre_step.element_tree.live(j) implies self.elem(j) == pre_step.elem(j)
                    && self.element_tree.parent_of(j) == pre_step.element_tree.parent_of(j) by {
                    if gc0 is Empty {
                        assert(self.element_tree.nodes@[j] == pre_step.element_tree.nodes@[j]);
                    }
                }
                assert forall|j: int|
                    pre_step.element_tree.live(j) && j != id
                    implies self.element_tree.children_of(j) == pre_step.element_tree.children_of(
                    j,
                ) by {
                    if gc0 is Empty {
                        assert(self.element_tree.nodes@[j] == pre_step.element_tree.nodes@[j]);
                    }
                }
                assert forall|r: int|
                    0 <= r < pre_step.render_tree.spec_len() implies ((
                #[trigger] self.render_tree.live(r)) == pre_step.render_tree.live(r)) by {
                    if gc0 is Empty {
                        assert(self.render_tree.nodes@[r] == pre_step.render_tree.nodes@[r]);
                    }
                }
                assert forall|r: int|
                    pre_step.render_tree.live(r) implies self.render_tree.value_of(r)
                    == pre_step.render_tree.value_of(r) && self.render_tree.parent_of(r)
                    == pre_step.render_tree.parent_of(r) by {
                    if gc0 is Empty {
                        assert(self.render_tree.nodes@[r] == pre_step.render_tree.nodes@[r]);
                    }
                }
                assert forall|w: int|
                    0 <= w < kids_old.len() implies pre_step.element_tree.live(
                    #[trigger] kids_old[w] as int,
                ) && pre_step.agrees_below(*self, kids_old[w] as int) by {
                    assert(pre_step.element_tree.children_of(id as int).contains(kids_old[w]));
                    pre_step.element_tree.lemma_child_edge(id as int, kids_old[w]);
                    Self::lemma_agrees_below_from_frames(
                        pre_step,
                        *self,
                        kids_old[w] as int,
                        id as int,
                    );
                }
                pre_step.lemma_represents_list_stable(
                    *self,
                    kids_old,
                    stored_children.take(done),
                );
                assert(stored_children.take(done + 1) =~= stored_children.take(done).push(
                    stored_children[done],
                ));
                crate::view::lemma_render_count_list_snoc(
                    stored_children.take(done),
                    stored_children[done],
                );
                crate::view::lemma_render_count_view_eq(all_views[done], stored_children[done]);
                assert(self.render_tree.spec_len() == pre_step.render_tree.spec_len()
                    + crate::view::render_count(gc0));
                assert forall|t: int|
                    rid <= t < self.render_tree.spec_len() implies (
                #[trigger] self.render_tree.live(t)) by {
                    if t < pre_step.render_tree.spec_len() {
                        assert(pre_step.render_tree.live(t));
                        assert(self.render_tree.live(t) == pre_step.render_tree.live(t));
                    }
                }
                crate::view::lemma_view_eq_shape(all_views[done], stored_children[done]);
                if gc0 is Empty {
                    assert(self.ctx_same(pre_step));
                    assert(self.element_tree.nodes@[id as int]
                        == pre_step.element_tree.nodes@[id as int]);
                    assert(self.element_tree.children_of(id as int) == kids_old);
                    self.lemma_represents_list_snoc_empty(
                        kids_old,
                        stored_children.take(done),
                    );
                    assert(stored_children[done] is Empty);
                    assert(stored_children[done] == UiView::Empty);
                    assert(self.represents_list(
                        self.element_tree.children_of(id as int),
                        stored_children.take(done + 1),
                    ));
                } else {
                    let newkid = pre_step.element_tree.spec_len();
                    assert(pre_step.inflated(*self, id as int, gc0, newkid));
                    assert(self.represents(newkid, gc0));
                    assert(self.element_tree.children_of(id as int) == kids_old.push(
                        newkid as usize,
                    ));
                    vstd::std_specs::vec::axiom_spec_len(&pre_step.element_tree.nodes);
                    assert((newkid as usize) as int == newkid);
                    self.lemma_represents_view_eq(newkid, gc0, stored_children[done]);
                    assert(self.represents((newkid as usize) as int, stored_children[done]));
                    self.lemma_represents_list_snoc(
                        kids_old,
                        stored_children.take(done),
                        newkid as usize,
                        stored_children[done],
                    );
                    assert(self.represents_list(
                        self.element_tree.children_of(id as int),
                        stored_children.take(done + 1),
                    ));
                }
                done = done + 1;
                assert(rest@ == all_views.skip(done));
            }
        }
        proof {
            assert(done == all_views.len());
            assert(stored_children.take(done) =~= stored_children);
            assert(self.represents_list(
                self.element_tree.children_of(id as int),
                stored_children,
            ));
            assert(self.render_tree.spec_len() == old(self).render_tree.spec_len() + 1
                + crate::view::render_count_list(stored_children));
            assert(s2.elem(id as int).to_configuration_spec() == old(self).elem(
                id as int,
            ).to_configuration_spec());
            assert(self.elem(id as int) == s2.elem(id as int));
            assert(s2.render_tree.live(rid));
            assert(self.render_tree.live(rid));
            assert(self.render_tree.value_of(rid) == s2.render_tree.value_of(rid));
            assert(self.render_tree.parent_of(rid) == s2.render_tree.parent_of(rid));
            assert forall|j: int|
                0 <= j < old(self).element_tree.spec_len() implies ((
            #[trigger] self.element_tree.live(j)) == old(self).element_tree.live(j)) by {
                assert(s2.element_tree.live(j) == old(self).element_tree.live(j));
                assert(self.element_tree.live(j) == s2.element_tree.live(j));
            }
            assert forall|j: int|
                #[trigger] old(self).element_tree.live(j) && j != id implies self.elem(j) == old(
                self,
            ).elem(j) && self.element_tree.children_of(j) == old(self).element_tree.children_of(
                j,
            ) by {
                assert(s2.elem(j) == old(self).elem(j));
                assert(s2.element_tree.children_of(j) == old(self).element_tree.children_of(j));
                assert(s2.element_tree.live(j));
            }
            assert forall|j: int|
                #[trigger] old(self).element_tree.live(j)
                implies self.element_tree.parent_of(j) == old(self).element_tree.parent_of(
                j,
            ) by {
                assert(s2.element_tree.parent_of(j) == old(self).element_tree.parent_of(j));
                assert(s2.element_tree.live(j));
            }
            assert forall|t: int|
                0 <= t < old(self).render_tree.spec_len() implies ((
            #[trigger] self.render_tree.live(t)) == old(self).render_tree.live(t)) by {
                assert(s2.render_tree.live(t) == old(self).render_tree.live(t));
                assert(self.render_tree.live(t) == s2.render_tree.live(t));
            }
            assert forall|t: int|
                #[trigger] old(self).render_tree.live(t) implies self.render_tree.value_of(t)
                == old(self).render_tree.value_of(t) && self.render_tree.parent_of(t) == old(
                self,
            ).render_tree.parent_of(t) by {
                assert(s2.render_tree.value_of(t) == old(self).render_tree.value_of(t));
                assert(s2.render_tree.parent_of(t) == old(self).render_tree.parent_of(t));
                assert(s2.render_tree.live(t));
            }
        }
    }

    /// Rebuild element `id`: a composite element builds and reconciles
    /// its child view, a render element attaches its render object and
    /// inflates its declared children.
    pub fn rebuild(&mut self, id: ElementId)
        requires
            old(self).wf(),
            old(self).element_tree.live(id as int),
            old(self).elem(id as int) is Render ==> old(self).elem(id as int).render_id_spec()
                is None && old(self).element_tree.children_of(id as int).len() == 0,
            old(self).elem(id as int) matches Element::Stateful(e) ==> !e.building,
        ensures
            final(self).wf(),
            final(self).element_tree.live(id as int),
            final(self).elem(id as int) is Render ==> final(self).elem(
                id as int,
            ).render_id_spec() is Some,
            final(self).elem(id as int).mounted_spec() == old(self).elem(
                id as int,
            ).mounted_spec(),
            ((*final(self)).elem(id as int) is Render) == ((*old(self)).elem(id as int) is Render),
            final(self).element_tree.parent_of(id as int) == old(self).element_tree.parent_of(
                id as int,
            ),
            forall|j: int|
                0 <= j < id ==> ((#[trigger] final(self).element_tree.live(j)) == old(self).element_tree.live(j)),
            forall|j: int|
                old(self).element_tree.live(j) && j < id ==> final(self).elem(j) == old(self).elem(j)
                    && final(self).element_tree.parent_of(j) == old(self).element_tree.parent_of(j),
            // a rebuilt render element owns a fresh render object placed
            // under its nearest render ancestor, and its declared child
            // views are inflated in order.
            (*old(self)).elem(id as int) is Render ==> {
                &&& final(self).render_tree.spec_len() == old(self).render_tree.spec_len() + 1
                    + crate::view::render_count_list(
                    old(self).elem(id as int)->Render_0.config.view.children@,
                )
                &&& final(self).elem(id as int).render_id_spec() == Some(
                    old(self).render_tree.spec_len() as RenderObjectId,
                )
                &&& final(self).render_tree.live(old(self).render_tree.spec_len())
                &&& final(self).render_tree.value_of(old(self).render_tree.spec_len())
                    == (RenderObject {
                    id: Some(old(self).render_tree.spec_len() as RenderObjectId),
                    lifecycle: old(self).elem(id as int)->Render_0.config.view.render_object,
                })
                &&& final(self).render_tree.parent_of(old(self).render_tree.spec_len()) == old(
                    self,
                ).nearest_render_ancestor(id as int)
                &&& final(self).represents_list(
                    final(self).element_tree.children_of(id as int),
                    old(self).elem(id as int)->Render_0.config.view.children@,
                )
            },
            // rebuilding a fresh element creates exactly the render
            // objects its subtree describes, all of them live.
            old(self).element_tree.children_of(id as int).len() == 0 && old(self).elem(
                id as int,
            ).is_composite() ==> final(self).render_tree.spec_len() == old(
                self,
            ).render_tree.spec_len() + crate::view::render_count(
                old(self).elem(id as int).build_spec(),
            ),
            forall|t: int|
                old(self).render_tree.spec_len() <= t < final(self).render_tree.spec_len() ==> (
                #[trigger] final(self).render_tree.live(t)),
            old(self).elem(id as int).is_composite() ==> (exists|r: Option<ElementId>|
                old(self).reconcile_post(
                    *final(self),
                    id as int,
                    old(self).child_slot(id as int),
                    old(self).elem(id as int).build_spec(),
                    r,
                )),
    {
        let is_composite = match self.element_tree.get(id).value() {
            Element::Render(_) => false,
            _ => true,
        };
        if is_composite {
            self.composite_rebuild(id);
            proof {
                let r = choose|r: Option<ElementId>|
                    old(self).reconcile_post(
                        *self,
                        id as int,
                        old(self).child_slot(id as int),
                        old(self).elem(id as int).build_spec(),
                        r,
                    );
                old(self).lemma_reconcile_keeps_parent(
                    *self,
                    id as int,
                    old(self).child_slot(id as int),
                    old(self).elem(id as int).build_spec(),
                    r,
                );
                old(self).lemma_reconcile_frames_below(
                    *self,
                    id as int,
                    old(self).child_slot(id as int),
                    old(self).elem(id as int).build_spec(),
                    r,
                );
                if old(self).element_tree.children_of(id as int).len() == 0 {
                    assert(old(self).child_slot(id as int) is None);
                    Self::lemma_reconcile_to_frames(
                        *old(self),
                        *self,
                        id as int,
                        old(self).elem(id as int).build_spec(),
                        r,
                    );
                } else {
                    // a mounted composite rebuilt in place: the render
                    // arena can only lose nodes, never gain vacant live
                    // slots above the old length.
                    old(self).lemma_reconcile_render_extent(
                        *self,
                        id as int,
                        old(self).child_slot(id as int),
                        old(self).elem(id as int).build_spec(),
                        r,
                    );
                }
            }
        } else {
            self.render_rebuild(id);
        }
    }

    /// Reconciliation never leaves a vacant slot below the grown end of
    /// the render arena: every render node beyond the old length is a
    /// freshly attached, live one.
    pub proof fn lemma_reconcile_render_extent(
        self,
        post: FrameworkContext,
        parent: int,
        child: Option<ElementId>,
        v: UiView,
        r: Option<ElementId>,
    )
        requires
            self.reconcile_post(post, parent, child, v, r),
        ensures
            post.render_tree.spec_len() >= self.render_tree.spec_len(),
            forall|t: int|
                self.render_tree.spec_len() <= t < post.render_tree.spec_len() ==> (
                #[trigger] post.render_tree.live(t)),
    {
        match child {
            None => {
                if v is Empty {
                } else {
                    assert(self.inflated(post, parent, v, self.element_tree.spec_len()));
                }
            },
            Some(c) => {
                if v is Empty {
                } else if crate::view::view_eq(self.elem(c as int).to_configuration_spec(), v) {
                } else if self.elem(c as int).to_configuration_spec().same_type_spec(v) && Some(
                    self.elem(c as int).key_path_spec(),
                ) == v.key_path_spec() {
                } else {
                    let m = choose|m: FrameworkContext|
                        (#[trigger] self.deactivated(m, c as int)) && m.wf() && m.inflated(
                            post,
                            parent,
                            v,
                            m.element_tree.spec_len(),
                        );
                    assert(m.render_tree.spec_len() == self.render_tree.spec_len());
                }
            },
        }
    }

    /// Reconciliation of a parent's child slot leaves every element
    /// strictly below the parent untouched: the old child and anything
    /// created or removed lies at or above the parent's own index.
    pub proof fn lemma_reconcile_frames_below(
        self,
        post: FrameworkContext,
        parent: int,
        child: Option<ElementId>,
        v: UiView,
        r: Option<ElementId>,
    )
        requires
            self.wf(),
            self.element_tree.live(parent),
            self.reconcile_post(post, parent, child, v, r),
            child matches Some(c) ==> self.element_tree.children_of(parent).len() == 1
                && self.element_tree.children_of(parent)[0] == c,
        ensures
            forall|j: int|
                0 <= j < parent ==> ((#[trigger] post.element_tree.live(j))
                    == self.element_tree.live(j)),
            forall|j: int|
                self.element_tree.live(j) && j < parent ==> post.elem(j) == self.elem(j)
                    && post.element_tree.parent_of(j) == self.element_tree.parent_of(j),
    {
        match child {
            None => {
                if v is Empty {
                    assert forall|j: int|
                        0 <= j < parent implies ((#[trigger] post.element_tree.live(j))
                        == self.element_tree.live(j)) by {
                        assert(post.element_tree.nodes@[j] == self.element_tree.nodes@[j]);
                    }
                    assert forall|j: int|
                        self.element_tree.live(j) && j < parent implies post.elem(j) == self.elem(
                        j,
                    ) && post.element_tree.parent_of(j) == self.element_tree.parent_of(j) by {
                        assert(post.element_tree.nodes@[j] == self.element_tree.nodes@[j]);
                    }
                } else {
                    assert(self.inflated(post, parent, v, self.element_tree.spec_len()));
                }
            },
            Some(c) => {
                assert(self.element_tree.children_of(parent).contains(c));
                self.element_tree.lemma_child_edge(parent, c);
                if v is Empty {
                    assert forall|j: int|
                        0 <= j < parent implies ((#[trigger] post.element_tree.live(j))
                        == self.element_tree.live(j)) by {
                        if self.element_tree.live(j) && self.element_tree.has_ancestor(
                            j,
                            c as int,
                        ) {
                            self.element_tree.lemma_ancestor_le(j, c as int);
                        }
                    }
                    assert forall|j: int|
                        self.element_tree.live(j) && j < parent implies post.elem(j) == self.elem(
                        j,
                    ) && post.element_tree.parent_of(j) == self.element_tree.parent_of(j) by {
                        if self.element_tree.has_ancestor(j, c as int) {
                            self.element_tree.lemma_ancestor_le(j, c as int);
                        }
                        assert(post.element_tree.live(j));
                    }
                } else if crate::view::view_eq(self.elem(c as int).to_configuration_spec(), v) {
                    assert forall|j: int|
                        0 <= j < parent implies ((#[trigger] post.element_tree.live(j))
                        == self.element_tree.live(j)) by {
                        assert(post.element_tree.nodes@[j] == self.element_tree.nodes@[j]);
                    }
                    assert forall|j: int|
                        self.element_tree.live(j) && j < parent implies post.elem(j) == self.elem(
                        j,
                    ) && post.element_tree.parent_of(j) == self.element_tree.parent_of(j) by {
                        assert(post.element_tree.nodes@[j] == self.element_tree.nodes@[j]);
                    }
                } else if self.elem(c as int).to_configuration_spec().same_type_spec(v) && Some(
                    self.elem(c as int).key_path_spec(),
                ) == v.key_path_spec() {
                    assert forall|j: int|
                        self.element_tree.live(j) && j < parent implies post.elem(j) == self.elem(
                        j,
                    ) by {
                        assert(j != c as int);
                    }
                } else {
                    let m = choose|m: FrameworkContext|
                        (#[trigger] self.deactivated(m, c as int)) && m.wf() && m.inflated(
                            post,
                            parent,
                            v,
                            m.element_tree.spec_len(),
                        );
                    assert forall|j: int|
                        0 <= j < parent implies ((#[trigger] post.element_tree.live(j))
                        == self.element_tree.live(j)) by {
                        if self.element_tree.live(j) && self.element_tree.has_ancestor(
                            j,
                            c as int,
                        ) {
                            self.element_tree.lemma_ancestor_le(j, c as int);
                        }
                        assert(m.element_tree.live(j) == self.element_tree.live(j));
                        assert(post.element_tree.live(j) == m.element_tree.live(j));
                    }
                    assert forall|j: int|
                        self.element_tree.live(j) && j < parent implies post.elem(j) == self.elem(
                        j,
                    ) && post.element_tree.parent_of(j) == self.element_tree.parent_of(j) by {
                        if self.element_tree.has_ancestor(j, c as int) {
                            self.element_tree.lemma_ancestor_le(j, c as int);
                        }
                        assert(m.element_tree.live(j));
                        assert(m.elem(j) == self.elem(j));
                        assert(post.elem(j) == m.elem(j));
                    }
                }
            },
        }
    }

    /// Reconciliation of a parent's child slot never changes the parent
    /// element's own value or liveness.
    pub proof fn lemma_reconcile_keeps_parent(
        self,
        post: FrameworkContext,
        parent: int,
        child: Option<ElementId>,
        v: UiView,
        r: Option<ElementId>,
    )
        requires
            self.wf(),
            self.element_tree.live(parent),
            self.reconcile_post(post, parent, child, v, r),
            child matches Some(c) ==> self.element_tree.children_of(parent).len() == 1
                && self.element_tree.children_of(parent)[0] == c,
        ensures
            post.element_tree.live(parent),
            post.elem(parent) == self.elem(parent),
            post.element_tree.parent_of(parent) == self.element_tree.parent_of(parent),
    {
        match child {
            None => {
                if v is Empty {
                    assert(post.element_tree.nodes@[parent] == self.element_tree.nodes@[parent]);
                } else {
                    assert(self.inflated(post, parent, v, self.element_tree.spec_len()));
                }
            },
            Some(c) => {
                assert(self.element_tree.children_of(parent).contains(c));
                self.element_tree.lemma_child_edge(parent, c);
                if v is Empty {
                    assert(parent != c as int);
                    if self.element_tree.has_ancestor(parent, c as int) {
                        self.element_tree.lemma_ancestor_le(parent, c as int);
                    }
                } else if crate::view::view_eq(self.elem(c as int).to_configuration_spec(), v) {
                    assert(post.element_tree.nodes@[parent] == self.element_tree.nodes@[parent]);
                } else if self.elem(c as int).to_configuration_spec().same_type_spec(v) && Some(
                    self.elem(c as int).key_path_spec(),
                ) == v.key_path_spec() {
                    assert(parent != c as int);
                } else {
                    let m = choose|m: FrameworkContext|
                        (#[trigger] self.deactivated(m, c as int)) && m.wf() && m.inflated(
                            post,
                            parent,
                            v,
                            m.element_tree.spec_len(),
                        );
                    assert(parent != c as int);
                    if self.element_tree.has_ancestor(parent, c as int) {
                        self.element_tree.lemma_ancestor_le(parent, c as int);
                    }
                    assert(m.element_tree.live(parent));
                    assert(m.elem(parent) == self.elem(parent));
                }
            },
        }
    }

    /// Mount element `id`: link it under `parent` (a root mount uses no
    /// parent), rebuild it, and mark it mounted.
    pub fn mount(&mut self, id: ElementId, parent: Option<ElementId>)
        requires
            old(self).wf(),
            old(self).element_tree.live(id as int),
            !old(self).elem(id as int).mounted_spec(),
            old(self).element_tree.parent_of(id as int) is None,
            old(self).elem(id as int) is Render ==> old(self).elem(id as int).render_id_spec()
                is None,
            old(self).element_tree.children_of(id as int).len() == 0,
            old(self).elem(id as int) matches Element::Stateful(e) ==> !e.building,
            parent matches Some(p) ==> old(self).element_tree.live(p as int) && (p as int)
                < id as int && (old(self).elem(p as int).is_composite()
                ==> old(self).element_tree.children_of(p as int).len() == 0),
        ensures
            final(self).wf(),
            final(self).element_tree.live(id as int),
            final(self).elem(id as int).mounted_spec(),
            final(self).elem(id as int).id_spec() == Some(id),
            parent matches Some(p) ==> final(self).element_tree.parent_of(id as int) == Some(p),
            parent is None ==> final(self).element_tree.parent_of(id as int) is None,
            // mounting creates exactly the render objects the element's
            // subtree describes, all of them live.
            old(self).elem(id as int).is_composite() ==> final(self).render_tree.spec_len()
                == old(self).render_tree.spec_len() + crate::view::render_count(
                old(self).elem(id as int).build_spec(),
            ),
            (*old(self)).elem(id as int) is Render ==> final(self).render_tree.spec_len() == old(
                self,
            ).render_tree.spec_len() + 1 + crate::view::render_count_list(
                old(self).elem(id as int)->Render_0.config.view.children@,
            ),
            forall|t: int|
                old(self).render_tree.spec_len() <= t < final(self).render_tree.spec_len() ==> (
                #[trigger] final(self).render_tree.live(t)),
            // a composite element's child slot instantiates the view its
            // payload builds.
            old(self).elem(id as int).is_composite() ==> {
                &&& (old(self).elem(id as int).build_spec() is Empty ==> final(self).element_tree.children_of(id as int).len() == 0)
                &&& (!(old(self).elem(id as int).build_spec() is Empty) ==> final(self).element_tree.children_of(id as int).len() == 1 && final(self).represents(
                    final(self).element_tree.children_of(id as int)[0] as int,
                    old(self).elem(id as int).build_spec(),
                ))
            },
            // a mounted render element owns a fresh render object placed
            // under its nearest render ancestor, and its declared child
            // views are inflated in order.
            (*old(self)).elem(id as int) is Render ==> {
                &&& final(self).elem(id as int).render_id_spec() == Some(
                    old(self).render_tree.spec_len() as RenderObjectId,
                )
                &&& final(self).render_tree.live(old(self).render_tree.spec_len())
                &&& final(self).render_tree.value_of(old(self).render_tree.spec_len())
                    == (RenderObject {
                    id: Some(old(self).render_tree.spec_len() as RenderObjectId),
                    lifecycle: old(self).elem(id as int)->Render_0.config.view.render_object,
                })
                &&& final(self).render_tree.parent_of(old(self).render_tree.spec_len()) == final(self).nearest_render_ancestor(id as int)
                &&& final(self).represents_list(
                    final(self).element_tree.children_of(id as int),
                    old(self).elem(id as int)->Render_0.config.view.children@,
                )
            },
    {
        match parent {
            Some(p) => {
                self.element_tree.append(p, id);
                proof {
                    let mid = *self;
                    assert forall|i: int|
                        mid.element_tree.live(i) implies mid.element_ok(i) by {
                        assert(old(self).element_tree.live(i));
                        assert(old(self).element_ok(i));
                        assert(mid.elem(i) == old(self).elem(i));
                        if i == p as int && mid.elem(i).is_composite() {
                            assert(mid.element_tree.children_of(i).len() <= 1);
                        }
                    }
                    assert forall|i: int, j: int|
                        mid.element_tree.live(i) && mid.element_tree.live(j) && i != j && (
                    #[trigger] mid.elem(i).render_id_spec()) is Some && (#[trigger] mid.elem(
                        j,
                    ).render_id_spec()) is Some implies mid.elem(i).render_id_spec() != mid.elem(
                        j,
                    ).render_id_spec() by {
                        assert(old(self).element_tree.live(i) && old(self).element_tree.live(j));
                        assert(mid.elem(i) == old(self).elem(i));
                        assert(mid.elem(j) == old(self).elem(j));
                    }
                }
            },
            None => {},
        }
        let ghost sa = *self;
        self.rebuild(id);
        let ghost sb = *self;
        proof {
            assert(self.elem(id as int) is Render ==> self.elem(
                id as int,
            ).render_id_spec() is Some);
        }
        self.set_mounted(id);
        proof {
            assert(sa.render_tree == old(self).render_tree);
            assert(sa.elem(id as int) == old(self).elem(id as int));
            assert(sa.element_tree.children_of(id as int).len() == 0);
            assert(self.render_tree.spec_len() == sb.render_tree.spec_len());
            assert forall|t: int|
                old(self).render_tree.spec_len() <= t < self.render_tree.spec_len() implies (
            #[trigger] self.render_tree.live(t)) by {
                assert(sb.render_tree.live(t));
                assert(self.render_tree.nodes@[t] == sb.render_tree.nodes@[t]);
            }
            if sa.elem(id as int).is_composite() {
                let r = choose|r: Option<ElementId>|
                    sa.reconcile_post(
                        sb,
                        id as int,
                        sa.child_slot(id as int),
                        sa.elem(id as int).build_spec(),
                        r,
                    );
                assert(sa.child_slot(id as int) is None);
                assert(sa.elem(id as int).build_spec() == old(self).elem(id as int).build_spec());
                Self::lemma_composite_child_represented(
                    sa,
                    sb,
                    *self,
                    id,
                    sa.elem(id as int).build_spec(),
                    r,
                );
            }
            if sa.elem(id as int) is Render {
                let fin = *self;
                assert(sa.elem(id as int) == old(self).elem(id as int));
                assert(sa.render_tree == old(self).render_tree);
                assert(sb.wf());
                assert(sb.element_tree.live(id as int));
                assert(sb.represents_list(
                    sb.element_tree.children_of(id as int),
                    sa.elem(id as int)->Render_0.config.view.children@,
                ));
                // the rebuilt child slot survives the mounted flag.
                assert forall|r2: int|
                    0 <= r2 < sb.render_tree.spec_len() implies ((
                #[trigger] fin.render_tree.live(r2)) == sb.render_tree.live(r2)) by {
                    assert(fin.render_tree.nodes@[r2] == sb.render_tree.nodes@[r2]);
                }
                assert forall|r2: int|
                    sb.render_tree.live(r2) implies fin.render_tree.value_of(r2)
                    == sb.render_tree.value_of(r2) && fin.render_tree.parent_of(r2)
                    == sb.render_tree.parent_of(r2) by {
                    assert(fin.render_tree.nodes@[r2] == sb.render_tree.nodes@[r2]);
                }
                let kids = sb.element_tree.children_of(id as int);
                assert forall|w: int|
                    0 <= w < kids.len() implies sb.element_tree.live(
                    #[trigger] kids[w] as int,
                ) && sb.agrees_below(fin, kids[w] as int) by {
                    assert(sb.element_tree.children_of(id as int).contains(kids[w]));
                    sb.element_tree.lemma_child_edge(id as int, kids[w]);
                    Self::lemma_agrees_below_from_frames(sb, fin, kids[w] as int, id as int);
                }
                sb.lemma_represents_list_stable(
                    fin,
                    kids,
                    sa.elem(id as int)->Render_0.config.view.children@,
                );
                assert(fin.element_tree.children_of(id as int) == kids);
                // the nearest render ancestor is unchanged by building
                // the subtree and setting the mounted flag.
                assert forall|j: int|
                    j < id as int implies ((#[trigger] fin.element_tree.live(j))
                    == sa.element_tree.live(j)) by {
                    assert(sb.element_tree.live(j) == sa.element_tree.live(j));
                    assert(fin.element_tree.live(j) == sb.element_tree.live(j));
                }
                assert forall|j: int|
                    sa.element_tree.live(j) && j < id as int
                    implies fin.element_tree.parent_of(j) == sa.element_tree.parent_of(j)
                    && fin.elem(j) == sa.elem(j) by {
                    assert(sb.element_tree.parent_of(j) == sa.element_tree.parent_of(j));
                    assert(sb.elem(j) == sa.elem(j));
                    assert(sb.element_tree.live(j));
                }
                assert(fin.element_tree.parent_of(id as int) == sa.element_tree.parent_of(
                    id as int,
                ));
                fin.lemma_nearest_unchanged(sa, id as int);
                assert(fin.nearest_render_ancestor(id as int) == sa.nearest_render_ancestor(
                    id as int,
                ));
                assert(fin.render_tree.parent_of(old(self).render_tree.spec_len())
                    == sb.render_tree.parent_of(old(self).render_tree.spec_len()));
            }
        }
    }

    /// The render-object index of the first direct child of `id` that
    /// owns one, if any.
    pub open spec fn first_child_render_id(self, s: Seq<usize>) -> Option<RenderObjectId>
        decreases s.len(),
    {
        if s.len() == 0 {
            None
        } else {
            match self.elem(s[0] as int).render_id_spec() {
                Some(r) => Some(r),
                None => self.first_child_render_id(s.subrange(1, s.len() as int)),
            }
        }
    }

    /// Scan the direct children of a composite element and hand back the
    /// render-object index of the first one that owns a render object.
    pub fn composite_first_render_object_id(&self, id: ElementId) -> (r: Option<RenderObjectId>)
        requires
            self.wf(),
            self.element_tree.live(id as int),
        ensures
            r == self.first_child_render_id(self.element_tree.children_of(id as int)),
    {
        let children = self.element_tree.children(id);
        let len = children.len();
        let mut k: usize = 0;
        proof {
            assert(children@.subrange(0, len as int) =~= children@);
        }
        loop
            invariant
                self.wf(),
                self.element_tree.live(id as int),
                children@ == self.element_tree.children_of(id as int),
                len == children@.len(),
                0 <= k <= len,
                self.first_child_render_id(children@) == self.first_child_render_id(
                    children@.subrange(k as int, len as int),
                ),
                forall|w: int|
                    0 <= w < k ==> self.elem(#[trigger] children@[w] as int).render_id_spec()
                        is None,
            ensures
                (k == len && self.first_child_render_id(children@) is None) || (k < len
                    && self.first_child_render_id(children@) == self.elem(
                    children@[k as int] as int,
                ).render_id_spec() && self.elem(children@[k as int] as int).render_id_spec()
                    is Some),
            decreases len - k,
        {
            if k == len {
                proof {
                    assert(children@.subrange(k as int, len as int).len() == 0);
                }
                break;
            }
            proof {
                assert(self.element_tree.children_of(id as int).contains(children@[k as int]));
                self.element_tree.lemma_child_edge(id as int, children@[k as int]);
                assert(children@.subrange(k as int, len as int)[0] == children@[k as int]);
            }
            let c = children[k];
            let rid = self.element_tree.get(c).value().to_render_object_id();
            if rid.is_some() {
                break;
            }
            proof {
                assert(children@.subrange(k as int, len as int).subrange(
                    1,
                    (len - k) as int,
                ) =~= children@.subrange(k as int + 1, len as int));
            }
            k = k + 1;
        }
        if k < len {
            let c = children[k];
            self.element_tree.get(c).value().to_render_object_id()
        } else {
            None
        }
    }

    /// Chain the frame conditions of the four steps of inflating a
    /// composite view (create, link, reconcile the built child, mark
    /// mounted) into the frame conditions of the whole inflation.
    proof fn lemma_inflate_frames(
        pre: FrameworkContext,
        sa: FrameworkContext,
        sb: FrameworkContext,
        sc: FrameworkContext,
        fin: FrameworkContext,
        parent: int,
        fid: int,
    )
        requires
            // creating the element touches nothing that existed.
            sa.render_tree == pre.render_tree,
            sa.element_tree.spec_len() == pre.element_tree.spec_len() + 1,
            fid == pre.element_tree.spec_len(),
            forall|j: int|
                0 <= j < pre.element_tree.spec_len() ==> sa.element_tree.nodes@[j]
                    == pre.element_tree.nodes@[j],
            sa.element_tree.live(fid),
            // linking the element under `parent`.
            sb.render_tree == sa.render_tree,
            sb.element_tree.spec_len() == sa.element_tree.spec_len(),
            forall|j: int| (#[trigger] sb.element_tree.live(j)) == sa.element_tree.live(j),
            forall|j: int|
                0 <= j < sa.element_tree.spec_len() && j != parent && j != fid
                    ==> sb.element_tree.nodes@[j] == sa.element_tree.nodes@[j],
            sb.element_tree.children_of(parent) == sa.element_tree.children_of(parent).push(
                fid as usize,
            ),
            sb.element_tree.parent_of(fid) == Some(parent as usize),
            sb.element_tree.parent_of(parent) == sa.element_tree.parent_of(parent),
            sb.element_tree.value_of(parent) == sa.element_tree.value_of(parent),
            0 <= parent < pre.element_tree.spec_len(),
            // building below the fresh element: its descendants are new,
            // old elements are untouched, render nodes may gain appended
            // children.
            sc.element_tree.spec_len() >= sb.element_tree.spec_len(),
            forall|j: int|
                0 <= j < sb.element_tree.spec_len() ==> ((#[trigger] sc.element_tree.live(j))
                    == sb.element_tree.live(j)),
            forall|j: int|
                #[trigger] sb.element_tree.live(j) && j != fid ==> sc.elem(j) == sb.elem(j),
            forall|j: int|
                #[trigger] sb.element_tree.live(j) ==> sc.element_tree.parent_of(j)
                    == sb.element_tree.parent_of(j),
            forall|j: int|
                #[trigger] sb.element_tree.live(j) && j != fid ==> sc.element_tree.children_of(j)
                    == sb.element_tree.children_of(j),
            sc.render_tree.spec_len() >= sb.render_tree.spec_len(),
            forall|r: int|
                0 <= r < sb.render_tree.spec_len() ==> ((#[trigger] sc.render_tree.live(r))
                    == sb.render_tree.live(r)),
            forall|r: int|
                #[trigger] sb.render_tree.live(r) ==> sc.render_tree.value_of(r)
                    == sb.render_tree.value_of(r) && sc.render_tree.parent_of(r)
                    == sb.render_tree.parent_of(r),
            forall|r: int|
                #[trigger] sb.render_tree.live(r) ==> sc.render_tree.children_of(r).len()
                    >= sb.render_tree.children_of(r).len() && (forall|w: int|
                    0 <= w < sb.render_tree.children_of(r).len()
                        ==> sc.render_tree.children_of(r)[w] == sb.render_tree.children_of(r)[w]),
            // marking the element mounted.
            fin.element_tree.spec_len() == sc.element_tree.spec_len(),
            forall|j: int| (#[trigger] fin.element_tree.live(j)) == sc.element_tree.live(j),
            forall|j: int|
                sc.element_tree.live(j) ==> fin.element_tree.parent_of(j)
                    == sc.element_tree.parent_of(j) && fin.element_tree.children_of(j)
                    == sc.element_tree.children_of(j),
            forall|j: int| sc.element_tree.live(j) && j != fid ==> fin.elem(j) == sc.elem(j),
            fin.render_tree.nodes@ == sc.render_tree.nodes@,
        ensures
            fin.element_tree.spec_len() >= pre.element_tree.spec_len() + 1,
            forall|j: int|
                0 <= j < pre.element_tree.spec_len() ==> ((#[trigger] fin.element_tree.live(j))
                    == pre.element_tree.live(j)),
            forall|j: int|
                #[trigger] pre.element_tree.live(j) ==> fin.elem(j) == pre.elem(j)
                    && fin.element_tree.parent_of(j) == pre.element_tree.parent_of(j),
            forall|j: int|
                #[trigger] pre.element_tree.live(j) && j != parent
                    ==> fin.element_tree.children_of(j) == pre.element_tree.children_of(j),
            fin.element_tree.children_of(parent) == pre.element_tree.children_of(parent).push(
                fid as usize,
            ),
            fin.element_tree.live(fid),
            fin.element_tree.parent_of(fid) == Some(parent as usize),
            fin.render_tree.spec_len() >= pre.render_tree.spec_len(),
            forall|r: int|
                0 <= r < pre.render_tree.spec_len() ==> ((#[trigger] fin.render_tree.live(r))
                    == pre.render_tree.live(r)),
            forall|r: int|
                #[trigger] pre.render_tree.live(r) ==> fin.render_tree.value_of(r)
                    == pre.render_tree.value_of(r) && fin.render_tree.parent_of(r)
                    == pre.render_tree.parent_of(r),
            forall|r: int|
                #[trigger] pre.render_tree.live(r) ==> fin.render_tree.children_of(r).len()
                    >= pre.render_tree.children_of(r).len() && (forall|w: int|
                    0 <= w < pre.render_tree.children_of(r).len()
                        ==> fin.render_tree.children_of(r)[w] == pre.render_tree.children_of(
                        r,
                    )[w]),
    {
        assert forall|j: int|
            0 <= j < pre.element_tree.spec_len() implies ((#[trigger] fin.element_tree.live(j))
            == pre.element_tree.live(j)) by {
            assert(sa.element_tree.live(j) == pre.element_tree.live(j));
            assert(sb.element_tree.live(j) == sa.element_tree.live(j));
            assert(sc.element_tree.live(j) == sb.element_tree.live(j));
        }
        assert forall|j: int|
            #[trigger] pre.element_tree.live(j) implies fin.elem(j) == pre.elem(j)
            && fin.element_tree.parent_of(j) == pre.element_tree.parent_of(j) by {
            assert(j < fid);
            assert(sa.elem(j) == pre.elem(j) && sa.element_tree.parent_of(j)
                == pre.element_tree.parent_of(j));
            assert(sa.element_tree.live(j));
            assert(sb.elem(j) == sa.elem(j) && sb.element_tree.parent_of(j)
                == sa.element_tree.parent_of(j));
            assert(sb.element_tree.live(j));
            assert(sc.elem(j) == sb.elem(j) && sc.element_tree.parent_of(j)
                == sb.element_tree.parent_of(j));
            assert(sc.element_tree.live(j));
            assert(fin.elem(j) == sc.elem(j) && fin.element_tree.parent_of(j)
                == sc.element_tree.parent_of(j));
        }
        assert forall|j: int|
            #[trigger] pre.element_tree.live(j) && j != parent
            implies fin.element_tree.children_of(j) == pre.element_tree.children_of(j) by {
            assert(j < fid);
            assert(sa.element_tree.children_of(j) == pre.element_tree.children_of(j));
            assert(sa.element_tree.live(j));
            assert(sb.element_tree.children_of(j) == sa.element_tree.children_of(j));
            assert(sb.element_tree.live(j));
            assert(sc.element_tree.children_of(j) == sb.element_tree.children_of(j));
            assert(sc.element_tree.live(j));
        }
        assert(fin.element_tree.children_of(parent) == pre.element_tree.children_of(parent).push(
            fid as usize,
        )) by {
            assert(sa.element_tree.children_of(parent) == pre.element_tree.children_of(parent));
            assert(sb.element_tree.live(parent));
            assert(sc.element_tree.children_of(parent) == sb.element_tree.children_of(parent));
            assert(sc.element_tree.live(parent));
        }
        assert(fin.element_tree.live(fid)) by {
            assert(sb.element_tree.live(fid));
            assert(sc.element_tree.live(fid));
        }
        assert(fin.element_tree.parent_of(fid) == Some(parent as usize)) by {
            assert(sb.element_tree.live(fid));
            assert(sc.element_tree.parent_of(fid) == sb.element_tree.parent_of(fid));
            assert(sc.element_tree.live(fid));
        }
        assert forall|r: int|
            0 <= r < pre.render_tree.spec_len() implies ((#[trigger] fin.render_tree.live(r))
            == pre.render_tree.live(r)) by {
            assert(sc.render_tree.live(r) == sb.render_tree.live(r));
        }
        assert forall|r: int|
            #[trigger] pre.render_tree.live(r) implies fin.render_tree.value_of(r)
            == pre.render_tree.value_of(r) && fin.render_tree.parent_of(r)
            == pre.render_tree.parent_of(r) by {
            assert(sb.render_tree.live(r));
            assert(sc.render_tree.value_of(r) == sb.render_tree.value_of(r));
        }
        assert forall|r: int|
            #[trigger] pre.render_tree.live(r) implies fin.render_tree.children_of(r).len()
            >= pre.render_tree.children_of(r).len() && (forall|w: int|
            0 <= w < pre.render_tree.children_of(r).len() ==> fin.render_tree.children_of(r)[w]
                == pre.render_tree.children_of(r)[w]) by {
            assert(sb.render_tree.live(r));
            assert(sc.render_tree.children_of(r).len() >= sb.render_tree.children_of(r).len());
            assert forall|w: int|
                0 <= w < pre.render_tree.children_of(r).len()
                implies fin.render_tree.children_of(r)[w] == pre.render_tree.children_of(
                r,
            )[w] by {
                assert(sc.render_tree.children_of(r)[w] == sb.render_tree.children_of(r)[w]);
            }
        }
    }

    /// After a fresh element was created at index `fid`, the whole
    /// context is still well formed.
    proof fn lemma_wf_after_into_element(self, pre: FrameworkContext, fid: int)
        requires
            pre.wf(),
            self.element_tree.wf(),
            self.render_tree == pre.render_tree,
            self.element_tree.spec_len() == pre.element_tree.spec_len() + 1,
            fid == pre.element_tree.spec_len(),
            self.element_tree.live(fid),
            forall|j: int|
                0 <= j < pre.element_tree.spec_len() ==> self.element_tree.nodes@[j]
                    == pre.element_tree.nodes@[j],
            self.elem(fid).id_spec() == Some(fid as ElementId),
            self.element_tree.children_of(fid).len() == 0,
            self.elem(fid).render_id_spec() is None,
            !self.elem(fid).mounted_spec(),
        ensures
            self.wf(),
    {
        assert forall|i: int| self.element_tree.live(i) implies self.element_ok(i) by {
            if i < fid {
                assert(pre.element_tree.live(i));
                assert(pre.element_ok(i));
                assert(self.elem(i) == pre.elem(i));
            }
        }
        assert forall|i: int, j: int|
            self.element_tree.live(i) && self.element_tree.live(j) && i != j && (
            #[trigger] self.elem(i).render_id_spec()) is Some && (#[trigger] self.elem(
            j,
        ).render_id_spec()) is Some implies self.elem(i).render_id_spec() != self.elem(
            j,
        ).render_id_spec() by {
            assert(i != fid && j != fid);
            assert(pre.element_tree.live(i) && pre.element_tree.live(j));
            assert(self.elem(i) == pre.elem(i) && self.elem(j) == pre.elem(j));
        }
    }

    /// After linking a fresh childless element under a parent whose child
    /// slot was free, the whole context is still well formed.
    proof fn lemma_wf_after_append(self, pre: FrameworkContext, parent: int, fid: int)
        requires
            pre.wf(),
            self.element_tree.wf(),
            self.render_tree == pre.render_tree,
            self.element_tree.spec_len() == pre.element_tree.spec_len() + 1,
            fid == pre.element_tree.spec_len(),
            self.element_tree.live(fid),
            pre.element_tree.live(parent),
            pre.elem(parent).is_composite() ==> pre.element_tree.children_of(parent).len() == 0,
            forall|j: int|
                0 <= j < pre.element_tree.spec_len() ==> ((#[trigger] self.element_tree.live(j))
                    == pre.element_tree.live(j)),
            forall|j: int|
                pre.element_tree.live(j) ==> self.elem(j) == pre.elem(j),
            forall|j: int|
                pre.element_tree.live(j) && j != parent ==> self.element_tree.children_of(j)
                    == pre.element_tree.children_of(j),
            self.element_tree.children_of(parent) == pre.element_tree.children_of(parent).push(
                fid as usize,
            ),
            self.elem(fid).id_spec() == Some(fid as ElementId),
            self.element_tree.children_of(fid).len() == 0,
            self.elem(fid).render_id_spec() is None,
            !self.elem(fid).mounted_spec(),
        ensures
            self.wf(),
    {
        assert forall|i: int| self.element_tree.live(i) implies self.element_ok(i) by {
            if i < fid {
                assert(pre.element_tree.live(i));
                assert(pre.element_ok(i));
                assert(self.elem(i) == pre.elem(i));
                if i == parent && self.elem(i).is_composite() {
                    assert(self.element_tree.children_of(i).len() <= 1);
                }
            }
        }
        assert forall|i: int, j: int|
            self.element_tree.live(i) && self.element_tree.live(j) && i != j && (
            #[trigger] self.elem(i).render_id_spec()) is Some && (#[trigger] self.elem(
            j,
        ).render_id_spec()) is Some implies self.elem(i).render_id_spec() != self.elem(
            j,
        ).render_id_spec() by {
            assert(i != fid && j != fid);
            assert(pre.element_tree.live(i) && pre.element_tree.live(j));
            assert(self.elem(i) == pre.elem(i) && self.elem(j) == pre.elem(j));
        }
    }

    /// Walk the element-tree ancestors of `id` (the element itself
    /// excluded) and return the render-object index of the first one that
    /// owns a render object; a render element under no render ancestor
    /// becomes a root of the render tree, which is not an error.
    pub fn find_ancestor_render_object_element(&self, id: ElementId) -> (r: Option<
        RenderObjectId,
    >)
        requires
            self.wf(),
            self.element_tree.live(id as int),
        ensures
            r == self.nearest_render_ancestor(id as int),
    {
        let mut cur = id;
        loop
            invariant
                self.wf(),
                self.element_tree.live(cur as int),
                self.nearest_render_ancestor(cur as int) == self.nearest_render_ancestor(
                    id as int,
                ),
            ensures
                self.nearest_render_ancestor(id as int) == match self.element_tree.parent_of(
                    cur as int,
                ) {
                    None => None::<RenderObjectId>,
                    Some(p) => self.elem(p as int).render_id_spec(),
                },
                self.element_tree.parent_of(cur as int) matches Some(p) ==> self.element_tree.live(
                    p as int,
                ) && self.elem(p as int).render_id_spec() is Some,
            decreases cur,
        {
            proof {
                assert(self.element_tree.node_ok(cur as int));
            }
            match self.element_tree.parent(cur) {
                None => {
                    break;
                },
                Some(p) => {
                    let rid = self.element_tree.get(p).value().to_render_object_id();
                    if rid.is_some() {
                        break;
                    }
                    cur = p;
                },
            }
        }
        match self.element_tree.parent(cur) {
            None => None,
            Some(p) => self.element_tree.get(p).value().to_render_object_id(),
        }
    }

    /// Materialise `render_object` as a fresh node of the render tree,
    /// record its index in the render element `id`, and hang it under the
    /// render object of the nearest render ancestor, if any.
    pub fn attach_render_object(&mut self, id: ElementId, render_object: u64)
        requires
            old(self).wf(),
            old(self).element_tree.live(id as int),
            old(self).elem(id as int) is Render,
            old(self).elem(id as int).render_id_spec() is None,
        ensures
            final(self).wf(),
            // the element arena keeps its structure; only element `id`
            // gains its render-object index.
            final(self).element_tree.spec_len() == old(self).element_tree.spec_len(),
            forall|j: int|
                (#[trigger] final(self).element_tree.live(j)) == old(self).element_tree.live(j),
            forall|j: int|
                0 <= j < old(self).element_tree.spec_len() && j != id
                    ==> final(self).element_tree.nodes@[j] == old(self).element_tree.nodes@[j],
            final(self).element_tree.parent_of(id as int) == old(self).element_tree.parent_of(
                id as int,
            ),
            final(self).element_tree.children_of(id as int) == old(self).element_tree.children_of(
                id as int,
            ),
            final(self).elem(id as int) == (Element::Render(
                crate::element::RenderObjectElement {
                    id: old(self).elem(id as int)->Render_0.id,
                    config: old(self).elem(id as int)->Render_0.config,
                    render_object_id: Some(old(self).render_tree.spec_len() as RenderObjectId),
                    mounted: old(self).elem(id as int)->Render_0.mounted,
                },
            )),
            // one fresh render node, placed under the nearest render
            // ancestor (or as a render root).
            final(self).render_tree.spec_len() == old(self).render_tree.spec_len() + 1,
            final(self).render_tree.live(old(self).render_tree.spec_len()),
            final(self).render_tree.value_of(old(self).render_tree.spec_len()) == (RenderObject {
                id: Some(old(self).render_tree.spec_len() as RenderObjectId),
                lifecycle: render_object,
            }),
            final(self).render_tree.parent_of(old(self).render_tree.spec_len()) == old(
                self,
            ).nearest_render_ancestor(id as int),
            final(self).render_tree.children_of(old(self).render_tree.spec_len()).len() == 0,
            forall|r: int|
                (0 <= r < old(self).render_tree.spec_len() ==> (#[trigger] final(self).render_tree.live(
                    r,
                )) == old(self).render_tree.live(r)),
            forall|r: int|
                old(self).render_tree.live(r) ==> {
                    &&& final(self).render_tree.value_of(r) == old(self).render_tree.value_of(r)
                    &&& final(self).render_tree.parent_of(r) == old(self).render_tree.parent_of(r)
                },
            forall|r: int|
                old(self).render_tree.live(r) && (old(self).nearest_render_ancestor(id as int)
                    matches Some(a) ==> r != a) ==> final(self).render_tree.children_of(r) == old(
                    self,
                ).render_tree.children_of(r),
            old(self).nearest_render_ancestor(id as int) matches Some(a)
                ==> final(self).render_tree.children_of(a as int) == old(
                self,
            ).render_tree.children_of(a as int).push(
                old(self).render_tree.spec_len() as RenderObjectId,
            ),
    {
        let rid = self.render_tree.new_node(RenderObject::new(render_object));
        let ghost r1 = self.render_tree;
        match &mut self.render_tree.nodes[rid] {
            Some(n) => { n.value.initialize(rid) },
            None => {},
        }
        proof {
            assert forall|t: int| (#[trigger] self.render_tree.live(t)) == r1.live(t) by {}
            assert(r1.same_structure(self.render_tree));
            r1.lemma_wf_same_structure(self.render_tree);
        }
        match &mut self.element_tree.nodes[id] {
            Some(n) => {
                match &mut n.value {
                    Element::Render(e) => { e.render_object_id = Some(rid) },
                    _ => {},
                }
            },
            None => {},
        }
        proof {
            old(self).element_tree.lemma_wf_same_structure(self.element_tree);
            assert(self.nearest_render_ancestor(id as int) == old(self).nearest_render_ancestor(
                id as int,
            )) by {
                self.lemma_nearest_unchanged(*old(self), id as int);
            }
            let mid = *self;
            assert forall|i: int| mid.element_tree.live(i) implies mid.element_ok(i) by {
                assert(old(self).element_tree.live(i));
                assert(old(self).element_ok(i));
                if i != id {
                    assert(mid.elem(i) == old(self).elem(i));
                }
            }
            assert forall|i: int, j: int|
                mid.element_tree.live(i) && mid.element_tree.live(j) && i != j && (
                #[trigger] mid.elem(i).render_id_spec()) is Some && (#[trigger] mid.elem(
                j,
            ).render_id_spec()) is Some implies mid.elem(i).render_id_spec() != mid.elem(
                j,
            ).render_id_spec() by {
                if i != id && j != id {
                    assert(old(self).elem(i).render_id_spec() == mid.elem(i).render_id_spec());
                    assert(old(self).elem(j).render_id_spec() == mid.elem(j).render_id_spec());
                } else {
                    let other = if i == id {
                        j
                    } else {
                        i
                    };
                    assert(old(self).element_tree.live(other));
                    assert(old(self).elem(other).render_id_spec() == mid.elem(
                        other,
                    ).render_id_spec());
                    assert(old(self).element_ok(other));
                }
            }
            assert(self.wf());
        }
        let ancestor = self.find_ancestor_render_object_element(id);
        match ancestor {
            Some(arid) => {
                proof {
                    // the ancestor's render node was created before the
                    // fresh one, so the new edge points upward in index
                    // order as the arena demands.
                    old(self).lemma_nearest_live(id as int);
                    assert(old(self).render_tree.live(arid as int));
                }
                self.render_tree.append(arid, rid);
            },
            None => {},
        }
        proof {
            let fin = *self;
            assert forall|i: int| fin.element_tree.live(i) implies fin.element_ok(i) by {
                assert(old(self).element_tree.live(i));
                assert(old(self).element_ok(i));
                if i != id {
                    assert(fin.elem(i) == old(self).elem(i));
                }
                if fin.elem(i).render_id_spec() is Some {
                    let r = fin.elem(i).render_id_spec()->Some_0;
                    if i != id {
                        assert(old(self).render_tree.live(r as int));
                    }
                    assert(fin.render_tree.live(r as int));
                    assert(fin.render_tree.value_of(r as int).id == Some(r));
                }
            }
            assert forall|i: int, j: int|
                fin.element_tree.live(i) && fin.element_tree.live(j) && i != j && (
                #[trigger] fin.elem(i).render_id_spec()) is Some && (#[trigger] fin.elem(
                j,
            ).render_id_spec()) is Some implies fin.elem(i).render_id_spec() != fin.elem(
                j,
            ).render_id_spec() by {
                if i != id && j != id {
                    assert(old(self).elem(i).render_id_spec() == fin.elem(i).render_id_spec());
                    assert(old(self).elem(j).render_id_spec() == fin.elem(j).render_id_spec());
                } else {
                    let other = if i == id {
                        j
                    } else {
                        i
                    };
                    assert(old(self).element_tree.live(other));
                    assert(old(self).elem(other).render_id_spec() == fin.elem(
                        other,
                    ).render_id_spec());
                    assert(old(self).element_ok(other));
                }
            }
        }
    }

    /// The nearest render ancestor of a live element owns a live render
    /// node whose index lies below the current length of the render arena.
    pub proof fn lemma_nearest_live(self, i: int)
        requires
            self.wf(),
            self.element_tree.live(i),
            self.nearest_render_ancestor(i) is Some,
        ensures
            self.render_tree.live(self.nearest_render_ancestor(i)->Some_0 as int),
        decreases i,
    {
        assert(self.element_tree.node_ok(i));
        let p = self.element_tree.parent_of(i)->Some_0;
        if self.elem(p as int).render_id_spec() is Some {
            assert(self.element_ok(p as int));
        } else {
            self.lemma_nearest_live(p as int);
        }
    }

    /// The nearest render ancestor only depends on the element arena's
    /// edges and on the render indices of elements other than `i` itself.
    proof fn lemma_nearest_unchanged(self, other: FrameworkContext, i: int)
        requires
            self.element_tree.wf(),
            other.element_tree.wf(),
            self.element_tree.live(i),
            other.element_tree.live(i),
            self.element_tree.parent_of(i) == other.element_tree.parent_of(i),
            forall|j: int|
                j < i ==> ((#[trigger] self.element_tree.live(j)) == other.element_tree.live(j)),
            forall|j: int|
                other.element_tree.live(j) && j < i ==> self.element_tree.parent_of(j)
                    == other.element_tree.parent_of(j),
            forall|j: int|
                other.element_tree.live(j) && j < i ==> self.elem(j).render_id_spec()
                    == other.elem(j).render_id_spec(),
        ensures
            self.nearest_render_ancestor(i) == other.nearest_render_ancestor(i),
        decreases i,
    {
        assert(self.element_tree.node_ok(i));
        assert(other.element_tree.node_ok(i));
        match self.element_tree.parent_of(i) {
            None => {},
            Some(p) => {
                assert((p as int) < i);
                if self.elem(p as int).render_id_spec() is Some {
                } else {
                    self.lemma_nearest_unchanged(other, p as int);
                }
            },
        }
    }
}

} // verus!
