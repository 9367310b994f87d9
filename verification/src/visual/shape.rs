//! The shapes that a recording of the algorithm draws, the colours they are
//! drawn in, and the arena that holds the shapes on screen between frames.
use vstd::prelude::*;
use vstd::string::StringSliceAdditionalSpecFns;

verus! {

broadcast use vstd::multiset::group_multiset_axioms;

/// A shape in plane coordinates; `style` picks the colour.
#[derive(Clone, Copy, Debug, PartialEq, Eq, Structural)]
pub enum Shape {
    DivLine { x: i64, level: usize },
    EmpPoint { x: i64, y: i64, style: i32 },
    EmpLine { x1: i64, y1: i64, x2: i64, y2: i64, style: i32 },
    ShadedRect { xl: i64, xr: i64, style: i32 },
}

/// The sort key of a shape: the rank of its kind, then its fields in order.
pub open spec fn shape_code(s: Shape) -> (int, int, int, int, int, int) {
    match s {
        Shape::DivLine { x, level } => (0, x as int, level as int, 0, 0, 0),
        Shape::EmpPoint { x, y, style } => (1, x as int, y as int, style as int, 0, 0),
        Shape::EmpLine { x1, y1, x2, y2, style } => (2, x1 as int, y1 as int, x2 as int, y2 as int, style as int),
        Shape::ShadedRect { xl, xr, style } => (3, xl as int, xr as int, style as int, 0, 0),
    }
}

/// Lexicographic `a <= b` on sort keys.
pub open spec fn code_le(a: (int, int, int, int, int, int), b: (int, int, int, int, int, int)) -> bool {
    if a.0 != b.0 {
        a.0 < b.0
    } else if a.1 != b.1 {
        a.1 < b.1
    } else if a.2 != b.2 {
        a.2 < b.2
    } else if a.3 != b.3 {
        a.3 < b.3
    } else if a.4 != b.4 {
        a.4 < b.4
    } else {
        a.5 <= b.5
    }
}

/// Shapes are drawn in this order: by kind, then by their fields.
pub open spec fn shape_le(a: Shape, b: Shape) -> bool {
    code_le(shape_code(a), shape_code(b))
}

/// The sequence is in drawing order.
pub open spec fn shapes_sorted(s: Seq<Shape>) -> bool {
    forall|i: int, j: int| 0 <= i <= j < s.len() ==> shape_le(s[i], s[j])
}

/// The sort key of a shape.
fn code_of(s: &Shape) -> (r: (i128, i128, i128, i128, i128, i128))
    ensures
        (r.0 as int, r.1 as int, r.2 as int, r.3 as int, r.4 as int, r.5 as int) == shape_code(*s),
{
    match s {
        Shape::DivLine { x, level } => (0, *x as i128, *level as i128, 0, 0, 0),
        Shape::EmpPoint { x, y, style } => (1, *x as i128, *y as i128, *style as i128, 0, 0),
        Shape::EmpLine { x1, y1, x2, y2, style } => (2, *x1 as i128, *y1 as i128, *x2 as i128, *y2 as i128, *style as i128),
        Shape::ShadedRect { xl, xr, style } => (3, *xl as i128, *xr as i128, *style as i128, 0, 0),
    }
}

/// Whether `a` is drawn no later than `b`.
pub fn shape_before(a: &Shape, b: &Shape) -> (r: bool)
    ensures
        r == shape_le(*a, *b),
{
    let ca = code_of(a);
    let cb = code_of(b);
    if ca.0 != cb.0 {
        ca.0 < cb.0
    } else if ca.1 != cb.1 {
        ca.1 < cb.1
    } else if ca.2 != cb.2 {
        ca.2 < cb.2
    } else if ca.3 != cb.3 {
        ca.3 < cb.3
    } else if ca.4 != cb.4 {
        ca.4 < cb.4
    } else {
        ca.5 <= cb.5
    }
}

proof fn lemma_shape_le_total(a: Shape, b: Shape)
    ensures
        shape_le(a, b) || shape_le(b, a),
        shape_le(a, a),
{
}

proof fn lemma_shape_le_transitive(a: Shape, b: Shape, c: Shape)
    requires
        shape_le(a, b),
        shape_le(b, c),
    ensures
        shape_le(a, c),
{
}

/// Sorts `shapes` into drawing order.
pub fn sort_shapes(shapes: &mut Vec<Shape>)
    ensures
        shapes_sorted(final(shapes)@),
        final(shapes)@.to_multiset() == old(shapes)@.to_multiset(),
        final(shapes)@.len() == old(shapes)@.len(),
{
    let n = shapes.len();
    let ghost s0 = shapes@;
    let mut i: usize = 1;
    if n == 0 {
        return;
    }
    proof {
        lemma_shape_le_total(shapes@[0], shapes@[0]);
    }
    while i < n
        invariant
            1 <= i <= n,
            n == shapes@.len(),
            shapes@.to_multiset() == s0.to_multiset(),
            forall|a: int, b: int| 0 <= a <= b < i ==> #[trigger] shape_le(shapes@[a], shapes@[b]),
        decreases n - i,
    {
        let mut j: usize = i;
        while j > 0 && !shape_before(&shapes[j - 1], &shapes[j])
            invariant
                1 <= i < n,
                j <= i,
                n == shapes@.len(),
                shapes@.to_multiset() == s0.to_multiset(),
                forall|a: int, b: int| 0 <= a <= b <= i && a != j && b != j ==> #[trigger] shape_le(shapes@[a], shapes@[b]),
                forall|a: int| j < a <= i ==> shape_le(shapes@[j as int], #[trigger] shapes@[a]),
            decreases j,
        {
            let ghost before = shapes@;
            let x = shapes[j - 1];
            let y = shapes[j];
            shapes.set(j - 1, y);
            shapes.set(j, x);
            proof {
                let m = before.to_multiset();
                let b1 = before.update(j - 1, y);
                vstd::seq_lib::to_multiset_update(before, j - 1, y);
                vstd::seq_lib::to_multiset_update(b1, j as int, x);
                assert(b1[j as int] == y);
                assert(shapes@ == b1.update(j as int, x));
                vstd::seq_lib::to_multiset_contains(before, x);
                vstd::seq_lib::to_multiset_contains(before, y);
                assert(m.insert(y).remove(x).insert(x).remove(y) =~= m);
                lemma_shape_le_total(x, y);
                assert forall|a: int, b: int| 0 <= a <= b <= i && a != j - 1 && b != j - 1
                    implies #[trigger] shape_le(shapes@[a], shapes@[b]) by {
                    if a == j && b > j {
                        assert(shape_le(before[j - 1], before[b]));
                    } else if b == j && a < j - 1 {
                        assert(shape_le(before[a], before[j - 1]));
                    } else if a == j && b == j {
                        lemma_shape_le_total(x, x);
                    }
                }
                assert forall|a: int| j - 1 < a <= i implies shape_le(shapes@[j - 1], #[trigger] shapes@[a]) by {
                    if a > j {
                        assert(shape_le(before[j as int], before[a]));
                    } else {
                        lemma_shape_le_total(y, y);
                    }
                }
                assert(shapes@.to_multiset() =~= s0.to_multiset());
            }
            j = j - 1;
        }
        proof {
            assert forall|a: int, b: int| 0 <= a <= b < i + 1 implies #[trigger] shape_le(shapes@[a], shapes@[b]) by {
                if a == j && b == j {
                    lemma_shape_le_total(shapes@[a], shapes@[a]);
                } else if b == j && a < j {
                    if j > 0 {
                        assert(shape_le(shapes@[a], shapes@[j - 1]));
                        lemma_shape_le_transitive(shapes@[a], shapes@[j - 1], shapes@[j as int]);
                    }
                }
            }
        }
        i = i + 1;
    }
}

/// Refers to a shape held by a `ShapeArena`: the slot it sits in and the
/// generation of that slot when it was added.
#[derive(Clone, Copy, Debug, PartialEq, Eq, Structural)]
pub struct ShapeHandle {
    index: usize,
    timestamp: u32,
}

impl ShapeHandle {
    /// The slot of the shape.
    pub closed spec fn spec_index(&self) -> int {
        self.index as int
    }

    /// The generation of the slot when the shape was added.
    pub closed spec fn spec_timestamp(&self) -> u32 {
        self.timestamp
    }
}

/// A slot of the arena: the shape it holds, if any, and its generation.
#[derive(Clone, Copy, Debug)]
pub struct ShapeSlot {
    pub shape: Option<Shape>,
    pub timestamp: u32,
}

/// The shapes of a slot sequence, in slot order.
pub open spec fn present(slots: Seq<ShapeSlot>) -> Seq<Shape>
    decreases slots.len(),
{
    if slots.len() == 0 {
        Seq::empty()
    } else {
        let rest = present(slots.drop_last());
        match slots.last().shape {
            Some(s) => rest.push(s),
            None => rest,
        }
    }
}

/// `b` is `a` after adding `shape`, which was given the handle `h`: the most
/// recently freed slot takes it, in its next generation, or a new slot at
/// the end when none is free.
pub open spec fn added(a: ShapeArena, b: ShapeArena, shape: Shape, h: ShapeHandle) -> bool {
    &&& a.free().len() > 0 ==> {
        let i = a.free().last();
        let ts = (a.slots()[i as int].timestamp as int + 1) % 0x1_0000_0000;
        &&& h.spec_index() == i
        &&& h.spec_timestamp() == ts
        &&& b.slots() == a.slots().update(i as int, ShapeSlot { shape: Some(shape), timestamp: ts as u32 })
        &&& b.free() == a.free().drop_last()
    }
    &&& a.free().len() == 0 ==> {
        &&& h.spec_index() == a.slots().len()
        &&& h.spec_timestamp() == 0
        &&& b.slots() == a.slots().push(ShapeSlot { shape: Some(shape), timestamp: 0 })
        &&& b.free() == a.free()
    }
}

/// `b` is `a` after removing the shape of `h`: its slot is emptied, keeps
/// its generation, and becomes the next one to reuse.
pub open spec fn removed(a: ShapeArena, b: ShapeArena, h: ShapeHandle) -> bool {
    &&& b.slots() == a.slots().update(h.spec_index(), ShapeSlot { shape: None, timestamp: h.spec_timestamp() })
    &&& b.free() == a.free().push(h.spec_index() as usize)
}

/// Emptying a slot that is already empty leaves the shapes held as they are.
proof fn lemma_present_empty_update(slots: Seq<ShapeSlot>, i: int, ts: u32)
    requires
        0 <= i < slots.len(),
        slots[i].shape is None,
    ensures
        present(slots.update(i, ShapeSlot { shape: None, timestamp: ts })) == present(slots),
    decreases slots.len(),
{
    let u = slots.update(i, ShapeSlot { shape: None, timestamp: ts });
    if i < slots.len() - 1 {
        assert(u.drop_last() =~= slots.drop_last().update(i, ShapeSlot { shape: None, timestamp: ts }));
        lemma_present_empty_update(slots.drop_last(), i, ts);
    } else {
        assert(u.drop_last() =~= slots.drop_last());
    }
}

/// Filling an empty slot adds one copy of the shape to those held.
proof fn lemma_present_fill(slots: Seq<ShapeSlot>, i: int, shape: Shape, ts: u32)
    requires
        0 <= i < slots.len(),
        slots[i].shape is None,
    ensures
        present(slots.update(i, ShapeSlot { shape: Some(shape), timestamp: ts })).to_multiset()
            == present(slots).to_multiset().insert(shape),
    decreases slots.len(),
{
    broadcast use vstd::seq_lib::group_to_multiset_ensures;
    let u = slots.update(i, ShapeSlot { shape: Some(shape), timestamp: ts });
    if i < slots.len() - 1 {
        assert(u.drop_last() =~= slots.drop_last().update(i, ShapeSlot { shape: Some(shape), timestamp: ts }));
        lemma_present_fill(slots.drop_last(), i, shape, ts);
        assert(u.last() == slots.last());
        if let Some(x) = slots.last().shape {
            assert(present(u) == present(u.drop_last()).push(x));
            assert(present(slots) == present(slots.drop_last()).push(x));
            assert(present(u).to_multiset() =~= present(slots).to_multiset().insert(shape));
        } else {
            assert(present(u) == present(u.drop_last()));
            assert(present(slots) == present(slots.drop_last()));
        }
    } else {
        assert(u.drop_last() =~= slots.drop_last());
        assert(present(u) == present(slots.drop_last()).push(shape));
        assert(present(slots) == present(slots.drop_last()));
    }
}

/// Adding a shape to a consistent arena adds exactly one copy of it to the
/// shapes the arena holds, and takes none away.
pub proof fn lemma_add_holds_one_more(a0: ShapeArena, a1: ShapeArena, shape: Shape, h: ShapeHandle)
    requires
        a0.consistent(),
        added(a0, a1, shape, h),
    ensures
        present(a1.slots()).to_multiset() == present(a0.slots()).to_multiset().insert(shape),
        present(a1.slots()).len() == present(a0.slots()).len() + 1,
{
    broadcast use vstd::seq_lib::group_to_multiset_ensures;
    if a0.free().len() > 0 {
        let i = a0.free().last();
        let ts = (a0.slots()[i as int].timestamp as int + 1) % 0x1_0000_0000;
        assert(a0.free()[a0.free().len() - 1] == i);
        assert(a0.is_free(i as int));
        assert(i < a0.slots().len());
        lemma_present_fill(a0.slots(), i as int, shape, ts as u32);
    } else {
        let s0 = a0.slots();
        assert(a1.slots().drop_last() =~= s0);
        assert(present(a1.slots()) == present(s0).push(shape));
    }
    assert(present(a1.slots()).to_multiset().len() == present(a0.slots()).to_multiset().len() + 1);
}

/// Adding a shape and then removing the handle it was given leaves the arena
/// holding the same shapes. The free slots are the same as before when one
/// was reused; otherwise the new slot stays, empty and free.
pub proof fn lemma_remove_undoes_add(a0: ShapeArena, a1: ShapeArena, a2: ShapeArena, shape: Shape, h: ShapeHandle)
    requires
        a0.consistent(),
        added(a0, a1, shape, h),
        removed(a1, a2, h),
    ensures
        present(a2.slots()) == present(a0.slots()),
        a0.free().len() > 0 ==> a2.free() == a0.free() && a2.slots().len() == a0.slots().len(),
        a0.free().len() == 0 ==> a2.free() == a0.free().push(a0.slots().len() as usize)
            && a2.slots() == a0.slots().push(ShapeSlot { shape: None, timestamp: 0 }),
{
    if a0.free().len() > 0 {
        let i = a0.free().last();
        assert(a0.free()[a0.free().len() - 1] == i);
        assert(a0.is_free(i as int));
        assert(a2.slots() =~= a0.slots().update(i as int, ShapeSlot { shape: None, timestamp: h.spec_timestamp() }));
        lemma_present_empty_update(a0.slots(), i as int, h.spec_timestamp());
        assert(a2.free() =~= a0.free());
    } else {
        assert(a2.slots() =~= a0.slots().push(ShapeSlot { shape: None, timestamp: 0 }));
        assert(a2.slots().drop_last() =~= a0.slots());
    }
}

/// Shapes in numbered slots; emptied slots are reused before new ones are
/// made, and each reuse starts a new generation of the slot.
pub struct ShapeArena {
    shapes: Vec<ShapeSlot>,
    free_indices: Vec<usize>,
}

impl ShapeArena {
    /// The slots, in order.
    pub closed spec fn slots(&self) -> Seq<ShapeSlot> {
        self.shapes@
    }

    /// The free slots, the one to reuse next at the end.
    pub closed spec fn free(&self) -> Seq<usize> {
        self.free_indices@
    }

    #[verifier::type_invariant]
    pub(crate) open spec fn well_formed(&self) -> bool {
        self.consistent()
    }

    /// Slot `i` is listed as free.
    pub open spec fn is_free(&self, i: int) -> bool {
        exists|k: int| 0 <= k < self.free().len() && self.free()[k] as int == i
    }

    /// The free slots are exactly the empty ones, each listed once.
    pub open spec fn consistent(&self) -> bool {
        &&& forall|k: int| 0 <= k < self.free().len() ==> #[trigger] self.free()[k] < self.slots().len()
        &&& forall|k: int, l: int| 0 <= k < l < self.free().len() ==> self.free()[k] != self.free()[l]
        &&& forall|i: int| 0 <= i < self.slots().len() ==> (
            #[trigger] self.slots()[i].shape is None <==> self.is_free(i))
    }

    /// The handle still refers to the shape in its slot.
    pub open spec fn is_live(&self, h: ShapeHandle) -> bool {
        &&& 0 <= h.spec_index() < self.slots().len()
        &&& self.slots()[h.spec_index()].timestamp == h.spec_timestamp()
        &&& self.slots()[h.spec_index()].shape is Some
    }

    /// An arena with no slot.
    pub fn new() -> (r: Self)
        ensures
            r.slots() == Seq::<ShapeSlot>::empty(),
            r.free() == Seq::<usize>::empty(),
            r.consistent(),
    {
        Self { shapes: Vec::new(), free_indices: Vec::new() }
    }

    /// An arena of `cap` empty slots, all free, the last one to be used first.
    pub fn with_capacity(cap: usize) -> (r: Self)
        ensures
            r.slots() == Seq::new(cap as nat, |i: int| ShapeSlot { shape: None, timestamp: 0 }),
            r.free() == Seq::new(cap as nat, |i: int| i as usize),
            r.consistent(),
    {
        let mut shapes: Vec<ShapeSlot> = Vec::with_capacity(cap);
        let mut free_indices: Vec<usize> = Vec::with_capacity(cap);
        let mut t: usize = 0;
        while t < cap
            invariant
                t <= cap,
                shapes@ == Seq::new(t as nat, |i: int| ShapeSlot { shape: None, timestamp: 0 }),
                free_indices@ == Seq::new(t as nat, |i: int| i as usize),
            decreases cap - t,
        {
            shapes.push(ShapeSlot { shape: None, timestamp: 0 });
            free_indices.push(t);
            t = t + 1;
            proof {
                assert(shapes@ =~= Seq::new(t as nat, |i: int| ShapeSlot { shape: None, timestamp: 0 }));
                assert(free_indices@ =~= Seq::new(t as nat, |i: int| i as usize));
            }
        }
        proof {
            let na = ShapeArena { shapes: shapes, free_indices: free_indices };
            assert forall|i: int| 0 <= i < na.slots().len() implies (#[trigger] na.slots()[i].shape is None
                <==> na.is_free(i)) by {
                assert(na.free()[i] as int == i);
            }
            assert(na.consistent());
        }
        Self { shapes, free_indices }
    }

    /// Puts `shape` into the most recently freed slot, in its next
    /// generation, or into a new slot at the end when none is free.
    pub fn add(&mut self, shape: Shape) -> (h: ShapeHandle)
        ensures
            added(*old(self), *final(self), shape, h),
            final(self).is_live(h),
            !old(self).is_live(h),
            forall|g: ShapeHandle| old(self).is_live(g) ==> final(self).is_live(g),
            forall|g: ShapeHandle| final(self).is_live(g) ==> old(self).is_live(g) || g == h,
            final(self).consistent(),
    {
        proof {
            use_type_invariant(&*self);
        }
        let ghost old_self = *self;
        let mut taken = ShapeArena::new();
        std::mem::swap(self, &mut taken);
        let ShapeArena { mut shapes, mut free_indices } = taken;
        let h = if free_indices.len() > 0 {
            let index = free_indices.pop().unwrap();
            let timestamp = shapes[index].timestamp.wrapping_add(1);
            shapes.set(index, ShapeSlot { shape: Some(shape), timestamp });
            ShapeHandle { index, timestamp }
        } else {
            shapes.push(ShapeSlot { shape: Some(shape), timestamp: 0 });
            ShapeHandle { index: shapes.len() - 1, timestamp: 0 }
        };
        proof {
            let na = ShapeArena { shapes: shapes, free_indices: free_indices };
            assert(old_self.consistent());
            {
                let os = old_self.slots();
                let of = old_self.free();
                if of.len() > 0 {
                    let idx = of.last();
                    assert(of[of.len() - 1] == idx);
                    assert forall|i: int| 0 <= i < na.slots().len() implies (#[trigger] na.slots()[i].shape is None
                        <==> na.is_free(i)) by {
                        if i == idx as int {
                            if na.is_free(i) {
                                let k = choose|k: int| 0 <= k < na.free().len() && na.free()[k] as int == i;
                                assert(of[k] == of[of.len() - 1]);
                            }
                        } else {
                            assert(os[i] == na.slots()[i]);
                            if old_self.is_free(i) {
                                let k = choose|k: int| 0 <= k < of.len() && of[k] as int == i;
                                assert(k != of.len() - 1);
                                assert(na.free()[k] as int == i);
                            }
                            if na.is_free(i) {
                                let k = choose|k: int| 0 <= k < na.free().len() && na.free()[k] as int == i;
                                assert(of[k] as int == i);
                            }
                        }
                    }
                } else {
                    assert forall|i: int| 0 <= i < na.slots().len() implies (#[trigger] na.slots()[i].shape is None
                        <==> na.is_free(i)) by {
                        if i < os.len() {
                            assert(os[i] == na.slots()[i]);
                        }
                    }
                }
            }
            assert forall|k: int| 0 <= k < na.free_indices@.len() implies #[trigger] na.free_indices@[k] < na.shapes@.len() by {
                if old_self.free().len() > 0 {
                    assert(na.free_indices@[k] == old_self.free_indices@[k]);
                } else {
                    assert(na.free_indices@[k] == old_self.free_indices@[k]);
                }
            }
            assert(na.consistent());
            if old_self.free().len() > 0 {
                let idx = old_self.free().last();
                assert(old_self.is_free(idx as int));
                assert(old_self.slots()[idx as int].shape is None);
                assert forall|g: ShapeHandle| old_self.is_live(g) implies na.is_live(g) by {
                    assert(g.spec_index() != idx as int);
                }
            }
        }
        proof {
            let na = ShapeArena { shapes: shapes, free_indices: free_indices };
            assert forall|g: ShapeHandle| na.is_live(g) implies old_self.is_live(g) || g == h by {
                if g.spec_index() == h.spec_index() {
                    assert(g.index == h.index && g.timestamp == h.timestamp);
                } else {
                    assert(na.slots()[g.spec_index()] == old_self.slots()[g.spec_index()]);
                }
            }
        }
        *self = ShapeArena { shapes, free_indices };
        h
    }

    /// Empties the slot of `handle` and frees it; a handle of another
    /// generation of the slot is refused.
    pub fn remove(&mut self, handle: &ShapeHandle)
        requires
            old(self).is_live(*handle),
        ensures
            removed(*old(self), *final(self), *handle),
            !final(self).is_live(*handle),
            forall|g: ShapeHandle| old(self).is_live(g) && g != *handle ==> final(self).is_live(g),
            forall|g: ShapeHandle| final(self).is_live(g) ==> old(self).is_live(g),
            final(self).consistent(),
    {
        proof {
            use_type_invariant(&*self);
        }
        let ghost old_self = *self;
        let mut taken = ShapeArena::new();
        std::mem::swap(self, &mut taken);
        let ShapeArena { mut shapes, mut free_indices } = taken;
        let ts = shapes[handle.index].timestamp;
        shapes.set(handle.index, ShapeSlot { shape: None, timestamp: ts });
        free_indices.push(handle.index);
        proof {
            let na = ShapeArena { shapes: shapes, free_indices: free_indices };
            {
                let os = old_self.slots();
                let of = old_self.free();
                let idx = handle.index;
                assert(!old_self.is_free(idx as int));
                assert forall|k: int, l: int| 0 <= k < l < na.free().len() implies na.free()[k] != na.free()[l] by {
                    if l == of.len() {
                        assert(na.free()[k] == of[k]);
                    }
                }
                assert forall|i: int| 0 <= i < na.slots().len() implies (#[trigger] na.slots()[i].shape is None
                    <==> na.is_free(i)) by {
                    if i == idx as int {
                        assert(na.free()[of.len() as int] == idx);
                    } else {
                        assert(os[i] == na.slots()[i]);
                        if old_self.is_free(i) {
                            let k = choose|k: int| 0 <= k < of.len() && of[k] as int == i;
                            assert(na.free()[k] as int == i);
                        }
                        if na.is_free(i) {
                            let k = choose|k: int| 0 <= k < na.free().len() && na.free()[k] as int == i;
                            assert(of[k] as int == i);
                        }
                    }
                }
            }
            assert forall|k: int| 0 <= k < na.free_indices@.len() implies #[trigger] na.free_indices@[k] < na.shapes@.len() by {
                if k < old_self.free().len() {
                    assert(na.free_indices@[k] == old_self.free_indices@[k]);
                }
            }
            assert(na.consistent());
            assert forall|g: ShapeHandle| old_self.is_live(g) && g != *handle implies na.is_live(g) by {
                if g.spec_index() == handle.spec_index() {
                    assert(g.spec_timestamp() == handle.spec_timestamp());
                    assert(g == *handle);
                }
            }
        }
        *self = ShapeArena { shapes, free_indices };
    }

    /// The shapes held, in slot order.
    pub fn compile(&self) -> (r: Vec<Shape>)
        ensures
            r@ == present(self.slots()),
    {
        let n = self.shapes.len();
        let mut r: Vec<Shape> = Vec::new();
        let mut t: usize = 0;
        while t < n
            invariant
                n == self.shapes@.len(),
                t <= n,
                r@ == present(self.shapes@.subrange(0, t as int)),
            decreases n - t,
        {
            proof {
                assert(self.shapes@.subrange(0, t + 1).drop_last() =~= self.shapes@.subrange(0, t as int));
            }
            match self.shapes[t].shape {
                Some(s) => r.push(s),
                None => {},
            }
            t = t + 1;
        }
        assert(self.shapes@.subrange(0, n as int) =~= self.shapes@);
        r
    }
}

/// `b` is an ASCII hexadecimal digit.
pub open spec fn is_hex_digit(b: u8) -> bool {
    (48 <= b <= 57) || (97 <= b <= 102) || (65 <= b <= 70)
}

/// The value of a hexadecimal digit.
pub open spec fn hex_value(b: u8) -> int {
    if 48 <= b <= 57 {
        b - 48
    } else if 97 <= b <= 102 {
        b - 97 + 10
    } else {
        b - 65 + 10
    }
}

/// The value of a hexadecimal digit; other bytes are refused.
pub fn hex_digit(b: u8) -> (r: u8)
    requires
        is_hex_digit(b),
    ensures
        r == hex_value(b),
{
    if 48 <= b && b <= 57 {
        b - 48
    } else if 97 <= b && b <= 102 {
        b - 97 + 10
    } else {
        b - 65 + 10
    }
}

/// The byte written by two hexadecimal digits, the high one first.
pub fn hex_byte(hi: u8, lo: u8) -> (r: u8)
    requires
        is_hex_digit(hi),
        is_hex_digit(lo),
    ensures
        r == 16 * hex_value(hi) + hex_value(lo),
{
    let h = hex_digit(hi);
    let l = hex_digit(lo);
    assert((h << 4u8) | l == h * 16 + l) by (bit_vector)
        requires
            h < 16,
            l < 16,
    ;
    (h << 4u8) | l
}

/// Where the digits of a colour literal start: after a leading `#`, if any.
pub open spec fn color_start(b: Seq<u8>) -> int {
    if b[0] == 35 { 1 } else { 0 }
}

/// A colour literal: an optional `#`, then six hexadecimal digits (red,
/// green, blue), then two more for alpha when exactly eight digits follow
/// the start.
pub open spec fn is_hex_color(b: Seq<u8>) -> bool {
    &&& b.len() >= 1
    &&& b.len() - color_start(b) >= 6
    &&& forall|k: int| color_start(b) <= k < color_start(b) + 6 ==> is_hex_digit(#[trigger] b[k])
    &&& b.len() - color_start(b) == 8 ==> is_hex_digit(b[color_start(b) + 6]) && is_hex_digit(b[color_start(b) + 7])
}

/// The byte written by the two digits at `k` and `k + 1`.
pub open spec fn hex_pair(b: Seq<u8>, k: int) -> int {
    16 * hex_value(b[k]) + hex_value(b[k + 1])
}

/// The red, green, blue and alpha channels of a colour literal; alpha is
/// 255 unless exactly eight digits give it.
pub open spec fn hex_color_value(b: Seq<u8>) -> (int, int, int, int) {
    let i = color_start(b);
    (
        hex_pair(b, i),
        hex_pair(b, i + 2),
        hex_pair(b, i + 4),
        if b.len() - i == 8 { hex_pair(b, i + 6) } else { 255 },
    )
}

/// Reads a colour literal such as `"#0f0f0fd4"` into its channels.
pub fn parse_hex_color(s: &str) -> (r: (u8, u8, u8, u8))
    requires
        is_hex_color(s.spec_bytes()),
    ensures
        (r.0 as int, r.1 as int, r.2 as int, r.3 as int) == hex_color_value(s.spec_bytes()),
{
    let b = s.as_bytes();
    let ghost bs = s.spec_bytes();
    let i: usize = if b[0] == 35u8 { 1 } else { 0 };
    assert(is_hex_digit(bs[i as int]) && is_hex_digit(bs[i + 1]) && is_hex_digit(bs[i + 2]));
    assert(is_hex_digit(bs[i + 3]) && is_hex_digit(bs[i + 4]) && is_hex_digit(bs[i + 5]));
    let r = hex_byte(b[i], b[i + 1]);
    let g = hex_byte(b[i + 2], b[i + 3]);
    let v = hex_byte(b[i + 4], b[i + 5]);
    let a = if b.len() - i == 8 {
        hex_byte(b[i + 6], b[i + 7])
    } else {
        0xFF
    };
    (r, g, v, a)
}


/// Red, for the pair found.
fn emphasis_red() -> (r: (u8, u8, u8, u8))
    ensures
        r == (255u8, 0u8, 0u8, 255u8),
{
    let s = "#ff0000ff";
    proof {
        reveal_strlit("#ff0000ff");
        broadcast use vstd::string::group_string_axioms;
        assert(vstd::string::is_ascii(s));
        assert(s.spec_bytes() =~= seq![35u8, 102u8, 102u8, 48u8, 48u8, 48u8, 48u8, 102u8, 102u8]);
    }
    parse_hex_color(s)
}

/// Green, for a pair being looked at.
fn candidate_green() -> (r: (u8, u8, u8, u8))
    ensures
        r == (0u8, 133u8, 29u8, 255u8),
{
    let s = "#00851dff";
    proof {
        reveal_strlit("#00851dff");
        broadcast use vstd::string::group_string_axioms;
        assert(vstd::string::is_ascii(s));
        assert(s.spec_bytes() =~= seq![35u8, 48u8, 48u8, 56u8, 53u8, 49u8, 100u8, 102u8, 102u8]);
    }
    parse_hex_color(s)
}

/// Dark shade, over the half that is not being searched.
fn shade_dark() -> (r: (u8, u8, u8, u8))
    ensures
        r == (15u8, 15u8, 15u8, 212u8),
{
    let s = "#0f0f0fd4";
    proof {
        reveal_strlit("#0f0f0fd4");
        broadcast use vstd::string::group_string_axioms;
        assert(vstd::string::is_ascii(s));
        assert(s.spec_bytes() =~= seq![35u8, 48u8, 102u8, 48u8, 102u8, 48u8, 102u8, 100u8, 52u8]);
    }
    parse_hex_color(s)
}

/// Yellow shade, over the band around the dividing line.
fn shade_yellow() -> (r: (u8, u8, u8, u8))
    ensures
        r == (218u8, 211u8, 6u8, 168u8),
{
    let s = "#dad306a8";
    proof {
        reveal_strlit("#dad306a8");
        broadcast use vstd::string::group_string_axioms;
        assert(vstd::string::is_ascii(s));
        assert(s.spec_bytes() =~= seq![35u8, 100u8, 97u8, 100u8, 51u8, 48u8, 54u8, 97u8, 56u8]);
    }
    parse_hex_color(s)
}

/// The styles that shapes are drawn in: 0 and 1.
pub open spec fn style_known(s: Shape) -> bool {
    match s {
        Shape::DivLine { .. } => true,
        Shape::EmpPoint { style, .. } => style == 0 || style == 1,
        Shape::EmpLine { style, .. } => style == 0 || style == 1,
        Shape::ShadedRect { style, .. } => style == 0 || style == 1,
    }
}

/// How wide a line is drawn; the width on screen also depends on how many
/// points there are.
#[derive(Clone, Copy, Debug, PartialEq, Eq, Structural)]
pub enum Stroke {
    /// A dividing line of the given recursion level.
    Division { level: usize },
    /// A segment between two points; `emphasized` draws it wider.
    Segment { emphasized: bool },
}

/// What drawing a shape comes to, on a square canvas from 0 to `space` in
/// both coordinates. Colours are red, green, blue and alpha.
#[derive(Clone, Copy, Debug, PartialEq, Eq)]
pub enum DrawOp {
    /// A straight line.
    Line { x1: i64, y1: i64, x2: i64, y2: i64, stroke: Stroke, color: (u8, u8, u8, u8) },
    /// A band the height of the canvas between `xl` and `xr`.
    Band { xl: i64, xr: i64, color: (u8, u8, u8, u8) },
    /// A filled dot on a point; `emphasized` draws it larger.
    Dot { x: i64, y: i64, emphasized: bool, color: (u8, u8, u8, u8) },
}

/// How a shape is drawn: a dividing line in black across the canvas; a band
/// cut to the canvas, dark or yellow; a point or a segment in red (style 0,
/// emphasized) or green (style 1).
pub open spec fn draw_op_spec(s: Shape, space: i64) -> DrawOp {
    match s {
        Shape::DivLine { x, level } => DrawOp::Line {
            x1: x, y1: 0, x2: x, y2: space, stroke: Stroke::Division { level }, color: (0u8, 0u8, 0u8, 255u8),
        },
        Shape::ShadedRect { xl, xr, style } => DrawOp::Band {
            xl: if xl > 0 { xl } else { 0 },
            xr: if xr < space { xr } else { space },
            color: if style == 0 { (0x0fu8, 0x0fu8, 0x0fu8, 0xd4u8) } else { (0xdau8, 0xd3u8, 0x06u8, 0xa8u8) },
        },
        Shape::EmpPoint { x, y, style } => DrawOp::Dot {
            x, y, emphasized: style == 0,
            color: if style == 0 { (255u8, 0u8, 0u8, 255u8) } else { (0u8, 0x85u8, 0x1du8, 255u8) },
        },
        Shape::EmpLine { x1, y1, x2, y2, style } => DrawOp::Line {
            x1, y1, x2, y2, stroke: Stroke::Segment { emphasized: style == 0 },
            color: if style == 0 { (255u8, 0u8, 0u8, 255u8) } else { (0u8, 0x85u8, 0x1du8, 255u8) },
        },
    }
}

/// The colour a drawing uses.
pub open spec fn op_color(op: DrawOp) -> (u8, u8, u8, u8) {
    match op {
        DrawOp::Line { color, .. } => color,
        DrawOp::Band { color, .. } => color,
        DrawOp::Dot { color, .. } => color,
    }
}

/// The style of a point, a segment or a band; `None` for a dividing line.
pub open spec fn style_of(s: Shape) -> Option<i32> {
    match s {
        Shape::DivLine { .. } => None,
        Shape::ShadedRect { style, .. } => Some(style),
        Shape::EmpPoint { style, .. } => Some(style),
        Shape::EmpLine { style, .. } => Some(style),
    }
}

/// The colours of the drawings: the best pair (a point or segment of style
/// 0) in red #ff0000ff and a pair being tried (style 1) in green #00851dff,
/// whatever the kind of shape; the shaded halves dark, the band yellow, and
/// the dividing lines black. Points and segments of one style share their
/// colour, and shapes of the two styles never do.
pub proof fn lemma_draw_colours(s: Shape, s2: Shape, space: i64)
    requires
        style_known(s),
        style_known(s2),
    ensures
        (s is EmpPoint || s is EmpLine) ==> (style_of(s) == Some(0i32) <==> op_color(draw_op_spec(s, space)) == (255u8, 0u8, 0u8, 255u8)),
        (s is EmpPoint || s is EmpLine) ==> (style_of(s) == Some(1i32) <==> op_color(draw_op_spec(s, space)) == (0u8, 133u8, 29u8, 255u8)),
        s is ShadedRect ==> (style_of(s) == Some(0i32) <==> op_color(draw_op_spec(s, space)) == (15u8, 15u8, 15u8, 212u8)),
        s is ShadedRect ==> (style_of(s) == Some(1i32) <==> op_color(draw_op_spec(s, space)) == (218u8, 211u8, 6u8, 168u8)),
        s is DivLine ==> op_color(draw_op_spec(s, space)) == (0u8, 0u8, 0u8, 255u8),
        (s is EmpPoint || s is EmpLine) && (s2 is EmpPoint || s2 is EmpLine) ==>
            (style_of(s) == style_of(s2) <==> op_color(draw_op_spec(s, space)) == op_color(draw_op_spec(s2, space))),
{
}

/// Where the drawings go: a point is a dot on it, large exactly for the best
/// pair (style 0); a segment is a line between its two ends, emphasized
/// exactly for style 0; a dividing line runs down the whole canvas at its
/// `x`; a band keeps its edges where they lie on the canvas and is cut to
/// the canvas otherwise.
pub proof fn lemma_draw_geometry(s: Shape, space: i64)
    requires
        style_known(s),
        space >= 0,
    ensures
        s matches Shape::EmpPoint { x, y, style } ==> (draw_op_spec(s, space) matches DrawOp::Dot { x: dx, y: dy, emphasized, .. }
            && dx == x && dy == y && (emphasized <==> style == 0)),
        s matches Shape::EmpLine { x1, y1, x2, y2, style } ==> (draw_op_spec(s, space) matches DrawOp::Line {
            x1: a1, y1: b1, x2: a2, y2: b2, stroke, .. }
            && a1 == x1 && b1 == y1 && a2 == x2 && b2 == y2 && stroke == (Stroke::Segment { emphasized: style == 0 })),
        s matches Shape::DivLine { x, level } ==> (draw_op_spec(s, space) matches DrawOp::Line {
            x1: a1, y1: b1, x2: a2, y2: b2, stroke, .. }
            && a1 == x && a2 == x && b1 == 0 && b2 == space && stroke == (Stroke::Division { level })),
        s matches Shape::ShadedRect { xl, xr, .. } ==> (draw_op_spec(s, space) matches DrawOp::Band { xl: bl, xr: br, .. }
            && bl >= 0 && bl >= xl && (bl == xl || bl == 0)
            && br <= space && br <= xr && (br == xr || br == space)),
{
}

impl Shape {
    /// What drawing the shape comes to on a canvas of side `space`; a style
    /// other than 0 and 1 is refused.
    pub fn draw_op(&self, space: i64) -> (r: DrawOp)
        requires
            style_known(*self),
        ensures
            r == draw_op_spec(*self, space),
    {
        match *self {
            Shape::DivLine { x, level } => DrawOp::Line {
                x1: x, y1: 0, x2: x, y2: space, stroke: Stroke::Division { level }, color: (0, 0, 0, 255),
            },
            Shape::ShadedRect { xl, xr, style } => {
                let color = if style == 0 { shade_dark() } else { shade_yellow() };
                DrawOp::Band {
                    xl: if xl > 0 { xl } else { 0 },
                    xr: if xr < space { xr } else { space },
                    color,
                }
            },
            Shape::EmpPoint { x, y, style } => {
                let color = if style == 0 { emphasis_red() } else { candidate_green() };
                DrawOp::Dot { x, y, emphasized: style == 0, color }
            },
            Shape::EmpLine { x1, y1, x2, y2, style } => {
                let color = if style == 0 { emphasis_red() } else { candidate_green() };
                DrawOp::Line { x1, y1, x2, y2, stroke: Stroke::Segment { emphasized: style == 0 }, color }
            },
        }
    }
}

} // verus!
