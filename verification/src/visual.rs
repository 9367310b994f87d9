//! Recording the steps of the algorithm as frames of shapes, and playing them back.
use vstd::prelude::*;
use vstd::std_specs::convert::FromSpecImpl;

pub mod shape;
pub mod notification;

pub use notification::{Notification, Rgba};

use shape::{Shape, ShapeHandle, ShapeArena, present, shapes_sorted, sort_shapes, added, removed};

verus! {

/// The shapes on screen during one step, and how long the step lasts in
/// microseconds (`None`: until the playback is told otherwise).
pub struct Frame {
    shapes: Vec<Shape>,
    lasting: Option<u64>,
}

impl Frame {
    /// The shapes of the frame, in drawing order.
    pub closed spec fn spec_shapes(&self) -> Seq<Shape> {
        self.shapes@
    }

    /// How long the frame lasts, in microseconds.
    pub closed spec fn spec_lasting(&self) -> Option<u64> {
        self.lasting
    }

    /// The shapes of the frame.
    pub fn shapes(&self) -> (r: &Vec<Shape>)
        ensures
            r@ == self.spec_shapes(),
    {
        &self.shapes
    }

    /// How long the frame lasts.
    pub fn lasting(&self) -> (r: Option<u64>)
        ensures
            r == self.spec_lasting(),
    {
        self.lasting
    }
}

/// One report made to a recording.
pub enum Event {
    /// A shape was put on screen.
    Add(Shape),
    /// The shape of a handle was taken off the screen: that shape, or
    /// `None` when there was no handle.
    Remove(Option<Shape>),
    /// The shapes on screen were kept as a frame lasting this long.
    Frame(Option<u64>),
}

/// The reports of a recording after one more: `e` comes last when the
/// recording keeps its reports, and nothing changes when it does not.
pub open spec fn after_event(events: Seq<Event>, keeps: bool, e: Event) -> Seq<Event> {
    if keeps { events.push(e) } else { events }
}

/// Where the algorithm reports what it is doing: shapes appear and
/// disappear, and the shapes on screen are kept as a frame.
pub trait Recording: Sized {
    /// The handle refers to a shape on screen.
    spec fn live(&self, h: ShapeHandle) -> bool;

    /// Whether the recording keeps the reports made to it.
    spec fn keeps_events() -> bool;

    /// The reports made so far, in order; none when they are not kept.
    spec fn events(&self) -> Seq<Event>;

    /// The shape that a handle on screen refers to.
    spec fn shape_of(&self, h: ShapeHandle) -> Shape;

    /// Whether every shape put on screen is given a handle.
    spec fn gives_handles() -> bool;

    /// Puts a shape on screen; the handle it may give back refers to it.
    fn add(&mut self, shape: Shape) -> (r: Option<ShapeHandle>)
        ensures
            r matches Some(h) ==> !old(self).live(h) && final(self).live(h) && final(self).shape_of(h) == shape,
            Self::gives_handles() ==> r is Some,
            forall|g: ShapeHandle| final(self).live(g) ==> old(self).live(g) || r == Some(g),
            forall|g: ShapeHandle| old(self).live(g) ==> final(self).live(g),
            final(self).events() == after_event(old(self).events(), Self::keeps_events(), Event::Add(shape)),
            forall|g: ShapeHandle| old(self).live(g) && final(self).live(g)
                ==> #[trigger] final(self).shape_of(g) == old(self).shape_of(g),
    ;

    /// Takes the shape of a handle off the screen; no other shape comes
    /// or goes.
    fn remove(&mut self, handle: &Option<ShapeHandle>)
        requires
            *handle matches Some(h) ==> old(self).live(h),
        ensures
            forall|g: ShapeHandle| old(self).live(g) && *handle != Some(g) ==> final(self).live(g),
            *handle matches Some(h) ==> !final(self).live(h),
            forall|g: ShapeHandle| final(self).live(g) ==> old(self).live(g),
            final(self).events() == after_event(old(self).events(), Self::keeps_events(), Event::Remove(match *handle {
                Some(h) => Some(old(self).shape_of(h)),
                None => None,
            })),
            forall|g: ShapeHandle| old(self).live(g) && final(self).live(g)
                ==> #[trigger] final(self).shape_of(g) == old(self).shape_of(g),
    ;

    /// Keeps what is on screen as a frame lasting `lasting` microseconds.
    fn next_frame(&mut self, lasting: Option<u64>)
        ensures
            forall|g: ShapeHandle| old(self).live(g) ==> final(self).live(g),
            final(self).events() == after_event(old(self).events(), Self::keeps_events(), Event::Frame(lasting)),
            forall|g: ShapeHandle| final(self).live(g) ==> old(self).live(g),
            forall|g: ShapeHandle| old(self).live(g) && final(self).live(g)
                ==> #[trigger] final(self).shape_of(g) == old(self).shape_of(g),
    ;
}

/// Keeps every frame of a recording.
pub struct FrameManager {
    arena: ShapeArena,
    pub frames: Vec<Frame>,
    log: Ghost<Seq<Event>>,
}

impl FrameManager {
    /// The shapes on screen are those held by the arena, in slot order.
    pub proof fn lemma_on_screen(fm: FrameManager)
        ensures
            fm.on_screen() == present(fm.spec_arena().slots()),
    {
    }

    /// The shapes currently on screen, in slot order.
    pub closed spec fn on_screen(&self) -> Seq<Shape> {
        present(self.arena.slots())
    }

    /// The arena holding the shapes on screen.
    pub closed spec fn spec_arena(&self) -> ShapeArena {
        self.arena
    }

    /// The frames recorded so far.
    pub closed spec fn spec_frames(&self) -> Seq<Frame> {
        self.frames@
    }

    /// No frames yet, and an arena of `arena_cap` empty slots.
    pub fn with_arena_capacity(arena_cap: usize) -> (r: Self)
        ensures
            r.spec_frames().len() == 0,
            r.spec_arena().slots() == Seq::new(arena_cap as nat, |i: int| shape::ShapeSlot { shape: None, timestamp: 0 }),
            r.spec_arena().free() == Seq::new(arena_cap as nat, |i: int| i as usize),
            r.spec_arena().consistent(),
            r.on_screen() == Seq::<Shape>::empty(),
            r.events() == Seq::<Event>::empty(),
    {
        let arena = ShapeArena::with_capacity(arena_cap);
        let r = Self { arena, frames: Vec::new(), log: Ghost(Seq::empty()) };
        proof {
            lemma_present_all_empty(r.arena.slots());
        }
        r
    }
}

/// With no shape in any slot, nothing is on screen.
proof fn lemma_present_all_empty(slots: Seq<shape::ShapeSlot>)
    requires
        forall|i: int| 0 <= i < slots.len() ==> (#[trigger] slots[i]).shape is None,
    ensures
        present(slots) == Seq::<Shape>::empty(),
    decreases slots.len(),
{
    if slots.len() > 0 {
        lemma_present_all_empty(slots.drop_last());
    }
}

impl Recording for FrameManager {
    open spec fn live(&self, h: ShapeHandle) -> bool {
        self.spec_arena().is_live(h)
    }

    open spec fn keeps_events() -> bool {
        true
    }

    closed spec fn events(&self) -> Seq<Event> {
        self.log@
    }

    open spec fn shape_of(&self, h: ShapeHandle) -> Shape {
        self.spec_arena().slots()[h.spec_index()].shape.unwrap()
    }

    open spec fn gives_handles() -> bool {
        true
    }

    fn add(&mut self, shape: Shape) -> (r: Option<ShapeHandle>)
        ensures
            r matches Some(h) && added(old(self).spec_arena(), final(self).spec_arena(), shape, h),
            final(self).spec_frames() == old(self).spec_frames(),
    {
        self.log = Ghost(self.log@.push(Event::Add(shape)));
        proof {
            use_type_invariant(&self.arena);
        }
        let ghost a0 = self.arena;
        let h = self.arena.add(shape);
        proof {
            let a1 = self.arena;
            assert(added(a0, a1, shape, h));
            if a0.free().len() > 0 {
                let i = a0.free().last();
                assert(h.spec_index() == i as int);
                assert(a0.free()[a0.free().len() - 1] == i);
                assert(i < a0.slots().len());
                let ts = (a0.slots()[i as int].timestamp as int + 1) % 0x1_0000_0000;
                assert(a1.slots() == a0.slots().update(i as int, shape::ShapeSlot { shape: Some(shape), timestamp: ts as u32 }));
                assert(a1.slots()[i as int].shape == Some(shape));
            } else {
                assert(a1.slots() == a0.slots().push(shape::ShapeSlot { shape: Some(shape), timestamp: 0 }));
                assert(a1.slots()[a0.slots().len() as int].shape == Some(shape));
            }
            assert(a1.slots()[h.spec_index()].shape == Some(shape));
            assert forall|g: ShapeHandle| a1.is_live(g) implies a0.is_live(g) || Some(h) == Some(g) by {}
            assert forall|g: ShapeHandle| a0.is_live(g) && a1.is_live(g)
                implies #[trigger] a1.slots()[g.spec_index()].shape.unwrap() == a0.slots()[g.spec_index()].shape.unwrap() by {
                if a0.free().len() > 0 {
                    let i = a0.free().last();
                    assert(a0.free()[a0.free().len() - 1] == i);
                    assert(a0.is_free(i as int));
                    assert(g.spec_index() != i as int);
                }
            }
        }
        Some(h)
    }

    /// Removes the shape of a handle; `None` leaves the screen as it is.
    /// A handle of an emptied slot that has been reused since is refused.
    fn remove(&mut self, handle: &Option<ShapeHandle>)
        ensures
            final(self).spec_frames() == old(self).spec_frames(),
            match *handle {
                Some(h) => removed(old(self).spec_arena(), final(self).spec_arena(), h),
                None => final(self).spec_arena() == old(self).spec_arena(),
            },
    {
        self.log = Ghost(self.log@.push(Event::Remove(match *handle {
            Some(h) => Some(self.shape_of(h)),
            None => None,
        })));
        if let Some(hdl) = handle {
            self.arena.remove(hdl);
        }
    }

    /// Keeps the shapes on screen, in drawing order, as a new frame.
    fn next_frame(&mut self, lasting: Option<u64>)
        ensures
            final(self).spec_frames().len() == old(self).spec_frames().len() + 1,
            forall|i: int| 0 <= i < old(self).spec_frames().len() ==> final(self).spec_frames()[i] == old(self).spec_frames()[i],
            final(self).spec_frames().last().spec_lasting() == lasting,
            shapes_sorted(final(self).spec_frames().last().spec_shapes()),
            final(self).spec_frames().last().spec_shapes().to_multiset() == old(self).on_screen().to_multiset(),
            final(self).spec_arena() == old(self).spec_arena(),
    {
        self.log = Ghost(self.log@.push(Event::Frame(lasting)));
        let mut shapes = self.arena.compile();
        sort_shapes(&mut shapes);
        self.frames.push(Frame { shapes, lasting });
    }
}

/// Records nothing.
pub struct NoRecord;

impl Recording for NoRecord {
    open spec fn live(&self, h: ShapeHandle) -> bool {
        false
    }

    open spec fn keeps_events() -> bool {
        false
    }

    open spec fn events(&self) -> Seq<Event> {
        Seq::empty()
    }

    open spec fn shape_of(&self, h: ShapeHandle) -> Shape {
        Shape::DivLine { x: 0, level: 0 }
    }

    open spec fn gives_handles() -> bool {
        false
    }

    fn add(&mut self, _shape: Shape) -> (r: Option<ShapeHandle>)
        ensures
            r is None,
    {
        None
    }

    fn remove(&mut self, _handle: &Option<ShapeHandle>) {
    }

    fn next_frame(&mut self, _lasting: Option<u64>) {
    }
}

/// How long each frame lasts.
pub open spec fn frame_lastings(frames: Seq<Frame>) -> Seq<Option<u64>> {
    frames.map_values(|f: Frame| f.spec_lasting())
}

/// Where playback stands after time has passed: starting at frame `curr`
/// with `elapsed` microseconds spent in it, each frame that lasts less than
/// the time spent is left for the next one, and the last frame is kept.
pub open spec fn advance(lastings: Seq<Option<u64>>, curr: int, elapsed: int) -> (int, int)
    decreases lastings.len() - curr,
{
    if curr < 0 || curr + 1 >= lastings.len() {
        (curr, elapsed)
    } else {
        match lastings[curr] {
            Some(l) => if elapsed > l {
                advance(lastings, curr + 1, elapsed - l)
            } else {
                (curr, elapsed)
            },
            None => (curr, elapsed),
        }
    }
}

/// Playback never goes past the last frame, and it only leaves frames that
/// have a lasting time, each after that time has been spent in it.
pub proof fn lemma_advance_bounds(lastings: Seq<Option<u64>>, curr: int, elapsed: int)
    requires
        0 <= curr < lastings.len(),
    ensures
        curr <= advance(lastings, curr, elapsed).0 < lastings.len(),
        forall|f: int| curr <= f < advance(lastings, curr, elapsed).0 ==> #[trigger] lastings[f] is Some,
        advance(lastings, curr, elapsed).0 < lastings.len() - 1 ==> (match lastings[advance(lastings, curr, elapsed).0] {
            Some(l) => advance(lastings, curr, elapsed).1 <= l,
            None => true,
        }),
    decreases lastings.len() - curr,
{
    if curr + 1 < lastings.len() {
        match lastings[curr] {
            Some(l) => {
                if elapsed > l {
                    lemma_advance_bounds(lastings, curr + 1, elapsed - l);
                }
            },
            None => {},
        }
    }
}

/// Letting time pass in two steps reaches the same frame, with the same
/// time spent in it, as letting it pass at once.
pub proof fn lemma_advance_split(lastings: Seq<Option<u64>>, curr: int, x: int, b: int)
    requires
        0 <= b,
    ensures
        advance(lastings, advance(lastings, curr, x).0, advance(lastings, curr, x).1 + b)
            == advance(lastings, curr, x + b),
    decreases lastings.len() - curr,
{
    if curr < 0 || curr + 1 >= lastings.len() {
    } else {
        match lastings[curr] {
            Some(l) => {
                if x > l {
                    lemma_advance_split(lastings, curr + 1, x - l, b);
                    assert(x + b - l == x - l + b);
                }
            },
            None => {},
        }
    }
}

/// Plays the frames of a recording back.
pub struct Player {
    fman: FrameManager,
    curr_frame: usize,
    elapsed: u64,
}

impl Player {
    #[verifier::type_invariant]
    spec fn frame_in_bounds(&self) -> bool {
        if self.fman.frames@.len() == 0 {
            self.curr_frame == 0
        } else {
            self.curr_frame < self.fman.frames@.len()
        }
    }

    /// A player at the start of the recording of `fman`.
    pub closed spec fn starting(fman: FrameManager) -> Player {
        Player { fman, curr_frame: 0, elapsed: 0 }
    }

    /// A new player shows the first frame, with no time spent in it.
    pub proof fn lemma_starting(fman: FrameManager)
        ensures
            Player::starting(fman).spec_frames() == fman.spec_frames(),
            Player::starting(fman).spec_curr() == 0,
            Player::starting(fman).spec_elapsed() == 0,
    {
    }

    /// The frames played.
    pub closed spec fn spec_frames(&self) -> Seq<Frame> {
        self.fman.frames@
    }

    /// The frame on screen.
    pub closed spec fn spec_curr(&self) -> int {
        self.curr_frame as int
    }

    /// Microseconds spent in the frame on screen.
    pub closed spec fn spec_elapsed(&self) -> int {
        self.elapsed as int
    }

    /// Playback has reached the last frame, or there is none.
    pub open spec fn spec_finished(&self) -> bool {
        self.spec_frames().len() == 0 || self.spec_curr() >= self.spec_frames().len() - 1
    }

    /// Lets `dt` microseconds of playback pass (the time spent stops at
    /// `u64::MAX`); once the last frame is on screen nothing changes.
    pub fn update(&mut self, dt: u64)
        ensures
            final(self).spec_frames() == old(self).spec_frames(),
            old(self).spec_finished() ==> final(self).spec_curr() == old(self).spec_curr()
                && final(self).spec_elapsed() == old(self).spec_elapsed(),
            !old(self).spec_finished() ==> (final(self).spec_curr(), final(self).spec_elapsed()) == advance(
                frame_lastings(old(self).spec_frames()),
                old(self).spec_curr(),
                if old(self).spec_elapsed() + dt > u64::MAX { u64::MAX as int } else { old(self).spec_elapsed() + dt },
            ),
            old(self).spec_curr() <= final(self).spec_curr(),
            final(self).spec_frames().len() > 0 ==> final(self).spec_curr() < final(self).spec_frames().len(),
    {
        proof {
            use_type_invariant(&*self);
        }
        if self.fman.frames.len() == 0 || self.curr_frame == self.fman.frames.len() - 1 {
            return;
        }
        self.elapsed = self.elapsed.saturating_add(dt);
        let ghost lastings = frame_lastings(self.fman.frames@);
        let ghost target = advance(lastings, self.curr_frame as int, self.elapsed as int);
        let n = self.fman.frames.len();
        while self.curr_frame < n - 1
            invariant
                n == self.fman.frames@.len(),
                n > 0,
                self.curr_frame < n,
                lastings == frame_lastings(self.fman.frames@),
                advance(lastings, self.curr_frame as int, self.elapsed as int) == target,
                self.fman.frames@ == old(self).fman.frames@,
                old(self).curr_frame <= self.curr_frame,
            ensures
                (self.curr_frame as int, self.elapsed as int) == target,
                self.fman.frames@ == old(self).fman.frames@,
                old(self).curr_frame <= self.curr_frame,
                self.curr_frame < n,
            decreases n - self.curr_frame,
        {
            let frame = &self.fman.frames[self.curr_frame];
            match frame.lasting {
                Some(lasting) => {
                    if self.elapsed > lasting {
                        self.elapsed = self.elapsed - lasting;
                        self.curr_frame = self.curr_frame + 1;
                    } else {
                        break;
                    }
                },
                _ => break,
            }
        }
    }

    /// The shapes of the frame on screen.
    pub fn get_shapes(&self) -> (r: &[Shape])
        requires
            self.spec_frames().len() > 0,
        ensures
            r@ == self.spec_frames()[self.spec_curr()].spec_shapes(),
    {
        proof {
            use_type_invariant(self);
        }
        self.fman.frames[self.curr_frame].shapes.as_slice()
    }

    /// Playback has reached the last frame, or there is none.
    pub fn finished(&self) -> (r: bool)
        ensures
            r == self.spec_finished(),
    {
        proof {
            use_type_invariant(self);
        }
        self.fman.frames.len() == 0 || self.curr_frame >= self.fman.frames.len() - 1
    }
}

impl From<FrameManager> for Player {
    fn from(fman: FrameManager) -> (r: Player) {
        Player { fman, curr_frame: 0, elapsed: 0 }
    }
}

impl FromSpecImpl<FrameManager> for Player {
    open spec fn obeys_from_spec() -> bool {
        true
    }

    open spec fn from_spec(fman: FrameManager) -> Player {
        Player::starting(fman)
    }
}

} // verus!
